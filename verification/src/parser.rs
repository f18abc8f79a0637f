//! Decoding of link-layer frames and classic pcap files.
//!
//! A frame is decoded layer by layer (link, IPv4/IPv6, TCP/UDP) into a
//! [`ParsedPacket`]; TCP and UDP payloads are tried as HTTP.  The spec
//! functions in this module state the decoding over byte sequences, and every
//! executable function is proved to compute exactly its spec.

use vstd::prelude::*;
use vstd::slice::slice_subrange;
use crate::text::{
    chars_of, dec, hex_lower_min, hex_upper_fixed, join, join_chars, owned, push_all, push_dec,
    push_hex_lower_min, push_hex_upper_fixed,
    string_from, views, chars_eq, decode_lossy, lines_chars, lines_of, splitn_chars, splitn_on,
    drop_controls, hex_encode, hex_lower, is_ctrl, push_str_chars, str_eq, take_at_most, take_chars,
    words, words_chars, starts_with, starts_with_chars, trim_start_char, trim_start_matches_char, utf8_lossy,
};

verus! {

// ---------------------------------------------------------------------------
// Types and their views
// ---------------------------------------------------------------------------

/// An HTTP request or response recognised in a payload.
#[derive(Clone, Debug)]
pub struct HttpInfo {
    pub method: String,
    pub path: String,
    pub version: String,
    pub status: Option<String>,
    pub body: String,
}

/// The characters of each field of an [`HttpInfo`].
pub struct HttpView {
    pub method: Seq<char>,
    pub path: Seq<char>,
    pub version: Seq<char>,
    pub status: Option<Seq<char>>,
    pub body: Seq<char>,
}

/// The characters of an optional string.
pub open spec fn opt_chars(o: Option<String>) -> Option<Seq<char>> {
    match o {
        Some(s) => Some(s@),
        None => None,
    }
}

impl View for HttpInfo {
    type V = HttpView;

    open spec fn view(&self) -> HttpView {
        HttpView {
            method: self.method@,
            path: self.path@,
            version: self.version@,
            status: opt_chars(self.status),
            body: self.body@,
        }
    }
}

/// The view of an optional [`HttpInfo`].
pub open spec fn opt_http(o: Option<HttpInfo>) -> Option<HttpView> {
    match o {
        Some(h) => Some(h@),
        None => None,
    }
}

/// One decoded packet.  `timestamp_ns` is the capture time in nanoseconds
/// since the Unix epoch.
#[derive(Clone, Debug)]
pub struct ParsedPacket {
    pub seq: u64,
    pub timestamp_ns: u64,
    pub src_mac: String,
    pub dst_mac: String,
    pub ethertype: u16,
    pub protocol: String,
    pub src_ip: Option<String>,
    pub dst_ip: Option<String>,
    pub src_port: Option<u16>,
    pub dst_port: Option<u16>,
    pub tcp_flags: Option<String>,
    pub payload_size: usize,
    pub http: Option<HttpInfo>,
}

/// The mathematical content of a [`ParsedPacket`].
pub struct PacketView {
    pub seq: u64,
    pub timestamp_ns: u64,
    pub src_mac: Seq<char>,
    pub dst_mac: Seq<char>,
    pub ethertype: u16,
    pub protocol: Seq<char>,
    pub src_ip: Option<Seq<char>>,
    pub dst_ip: Option<Seq<char>>,
    pub src_port: Option<u16>,
    pub dst_port: Option<u16>,
    pub tcp_flags: Option<Seq<char>>,
    pub payload_size: usize,
    pub http: Option<HttpView>,
}

impl View for ParsedPacket {
    type V = PacketView;

    open spec fn view(&self) -> PacketView {
        PacketView {
            seq: self.seq,
            timestamp_ns: self.timestamp_ns,
            src_mac: self.src_mac@,
            dst_mac: self.dst_mac@,
            ethertype: self.ethertype,
            protocol: self.protocol@,
            src_ip: opt_chars(self.src_ip),
            dst_ip: opt_chars(self.dst_ip),
            src_port: self.src_port,
            dst_port: self.dst_port,
            tcp_flags: opt_chars(self.tcp_flags),
            payload_size: self.payload_size,
            http: opt_http(self.http),
        }
    }
}

/// The views of a sequence of packets.
pub open spec fn packet_views(ps: Seq<ParsedPacket>) -> Seq<PacketView> {
    ps.map_values(|p: ParsedPacket| p@)
}

/// Link-layer encapsulations (libpcap link types) that are decoded.
#[derive(Clone, Copy, PartialEq, Eq, Debug, Structural)]
pub enum LinkKind {
    /// DLT_EN10MB: Ethernet.
    Ethernet,
    /// DLT_NULL (0) / DLT_LOOP (108): 4-byte address family, then IP.
    Null,
    /// DLT_RAW: raw IP.
    Raw,
    /// DLT_LINUX_SLL: 16-byte cooked header ending in an ethertype.
    LinuxSll,
    /// Any other link type; not decoded.
    Other,
}

/// The libpcap link type number that selects each [`LinkKind`].
pub open spec fn link_kind_of(value: i32) -> LinkKind {
    if value == 1 {
        LinkKind::Ethernet
    } else if value == 0 || value == 108 {
        LinkKind::Null
    } else if value == 12 || value == 101 {
        LinkKind::Raw
    } else if value == 113 {
        LinkKind::LinuxSll
    } else {
        LinkKind::Other
    }
}

impl LinkKind {
    /// Maps a libpcap link type number.
    pub fn from_linktype(value: i32) -> (k: LinkKind)
        ensures
            k == link_kind_of(value),
    {
        match value {
            1 => LinkKind::Ethernet,
            0 | 108 => LinkKind::Null,
            12 | 101 => LinkKind::Raw,
            113 => LinkKind::LinuxSll,
            _ => LinkKind::Other,
        }
    }
}

// ---------------------------------------------------------------------------
// Small decoders
// ---------------------------------------------------------------------------

/// Big-endian 16-bit value of two bytes.
pub open spec fn be16(a: u8, b: u8) -> u16 {
    (a as int * 256 + b as int) as u16
}

/// Big-endian 32-bit value of four bytes.
pub open spec fn be32(a: u8, b: u8, c: u8, d: u8) -> u32 {
    (a as int * 16777216 + b as int * 65536 + c as int * 256 + d as int) as u32
}

/// Little-endian 32-bit value of four bytes.
pub open spec fn le32(a: u8, b: u8, c: u8, d: u8) -> u32 {
    be32(d, c, b, a)
}

fn read_be16(a: u8, b: u8) -> (r: u16)
    ensures
        r == be16(a, b),
{
    (a as u16) * 256 + (b as u16)
}

fn read_be32(a: u8, b: u8, c: u8, d: u8) -> (r: u32)
    ensures
        r == be32(a, b, c, d),
{
    (a as u32) * 16777216 + (b as u32) * 65536 + (c as u32) * 256 + (d as u32)
}

/// The 32-bit value of the first four bytes in the given byte order.
pub open spec fn u32_of(bytes: Seq<u8>, little_endian: bool) -> u32 {
    if little_endian {
        le32(bytes[0], bytes[1], bytes[2], bytes[3])
    } else {
        be32(bytes[0], bytes[1], bytes[2], bytes[3])
    }
}

/// Reads a 4-byte unsigned integer in the given byte order.
fn read_u32(bytes: &[u8], little_endian: bool) -> (r: u32)
    requires
        bytes@.len() >= 4,
    ensures
        r == u32_of(bytes@, little_endian),
{
    if little_endian {
        read_be32(bytes[3], bytes[2], bytes[1], bytes[0])
    } else {
        read_be32(bytes[0], bytes[1], bytes[2], bytes[3])
    }
}

// ---------------------------------------------------------------------------
// Text of addresses and flags
// ---------------------------------------------------------------------------

/// The names of the TCP flag bits FIN, SYN, RST, PSH, ACK and URG that are
/// set, in that order.
pub open spec fn flag_names(f: u8) -> Seq<Seq<char>> {
    let a = if f % 2 == 1 {
        seq!["FIN"@]
    } else {
        Seq::empty()
    };
    let b = if (f / 2) % 2 == 1 {
        a.push("SYN"@)
    } else {
        a
    };
    let c = if (f / 4) % 2 == 1 {
        b.push("RST"@)
    } else {
        b
    };
    let d = if (f / 8) % 2 == 1 {
        c.push("PSH"@)
    } else {
        c
    };
    let e = if (f / 16) % 2 == 1 {
        d.push("ACK"@)
    } else {
        d
    };
    if (f / 32) % 2 == 1 {
        e.push("URG"@)
    } else {
        e
    }
}

/// The text of a TCP flags byte: the set flags joined by commas, or `NONE`.
pub open spec fn flags_text(f: u8) -> Seq<char> {
    if flag_names(f).len() == 0 {
        "NONE"@
    } else {
        join(flag_names(f), ","@)
    }
}

/// No flag name is listed exactly when none of the six flag bits is set,
/// and then the text is `NONE`.
pub proof fn lemma_flags_none(f: u8)
    ensures
        (flag_names(f).len() == 0) == (f % 64 == 0),
        f % 64 == 0 ==> flags_text(f) == "NONE"@,
{
    assert((f % 64 == 0) == (f % 2 == 0 && (f / 2) % 2 == 0 && (f / 4) % 2 == 0 && (f / 8) % 2 == 0
        && (f / 16) % 2 == 0 && (f / 32) % 2 == 0)) by (bit_vector);
}

fn push_name(parts: &mut Vec<Vec<char>>, name: &str)
    ensures
        views(final(parts)@) == views(old(parts)@).push(name@),
{
    let v = chars_of(name);
    parts.push(v);
    assert(views(parts@) =~= views(old(parts)@).push(name@));
}

/// Text of the TCP flag bits, e.g. `SYN,ACK`.
fn format_tcp_flags(flags: u8) -> (s: String)
    ensures
        s@ == flags_text(flags),
{
    let mut parts: Vec<Vec<char>> = Vec::new();
    if flags % 2 == 1 {
        push_name(&mut parts, "FIN");
    }
    if (flags / 2) % 2 == 1 {
        push_name(&mut parts, "SYN");
    }
    if (flags / 4) % 2 == 1 {
        push_name(&mut parts, "RST");
    }
    if (flags / 8) % 2 == 1 {
        push_name(&mut parts, "PSH");
    }
    if (flags / 16) % 2 == 1 {
        push_name(&mut parts, "ACK");
    }
    if (flags / 32) % 2 == 1 {
        push_name(&mut parts, "URG");
    }
    assert(views(parts@) =~= flag_names(flags));
    if parts.len() == 0 {
        owned("NONE")
    } else {
        let sep = chars_of(",");
        let joined = join_chars(&parts, &sep);
        string_from(&joined)
    }
}

/// Two upper-case hex digits of each byte, joined by colons.
pub open spec fn mac_text(b: Seq<u8>) -> Seq<char> {
    join(b.map_values(|x: u8| hex_upper_fixed(x as nat, 2)), ":"@)
}

/// `AA:BB:CC:DD:EE:FF` text of six bytes.
fn mac_str(b: &[u8]) -> (s: String)
    requires
        b@.len() == 6,
    ensures
        s@ == mac_text(b@),
{
    let mut parts: Vec<Vec<char>> = Vec::new();
    let mut i: usize = 0;
    while i < 6
        invariant
            b@.len() == 6,
            i <= 6,
            views(parts@) == b@.take(i as int).map_values(|x: u8| hex_upper_fixed(x as nat, 2)),
        decreases 6 - i,
    {
        let mut h: Vec<char> = Vec::new();
        push_hex_upper_fixed(&mut h, b[i] as u64, 2);
        assert(h@ =~= hex_upper_fixed(b@[i as int] as nat, 2));
        let ghost before = views(parts@);
        let ghost hv = h@;
        parts.push(h);
        assert(views(parts@) =~= before.push(hv));
        assert(b@.take(i + 1).map_values(|x: u8| hex_upper_fixed(x as nat, 2)) =~= b@.take(
            i as int,
        ).map_values(|x: u8| hex_upper_fixed(x as nat, 2)).push(hv));
        i = i + 1;
    }
    assert(b@.take(6) =~= b@);
    let sep = chars_of(":");
    let joined = join_chars(&parts, &sep);
    string_from(&joined)
}

/// Dotted-decimal text of four bytes.
pub open spec fn ipv4_text(b: Seq<u8>) -> Seq<char> {
    join(b.map_values(|x: u8| dec(x as nat)), "."@)
}

/// `a.b.c.d` text of four bytes.
fn ipv4_str(b: &[u8]) -> (s: String)
    requires
        b@.len() == 4,
    ensures
        s@ == ipv4_text(b@),
{
    let mut parts: Vec<Vec<char>> = Vec::new();
    let mut i: usize = 0;
    while i < 4
        invariant
            b@.len() == 4,
            i <= 4,
            views(parts@) == b@.take(i as int).map_values(|x: u8| dec(x as nat)),
        decreases 4 - i,
    {
        let mut h: Vec<char> = Vec::new();
        push_dec(&mut h, b[i] as u64);
        assert(h@ =~= dec(b@[i as int] as nat));
        let ghost before = views(parts@);
        let ghost hv = h@;
        parts.push(h);
        assert(views(parts@) =~= before.push(hv));
        assert(b@.take(i + 1).map_values(|x: u8| dec(x as nat)) =~= b@.take(i as int).map_values(
            |x: u8| dec(x as nat),
        ).push(hv));
        i = i + 1;
    }
    assert(b@.take(4) =~= b@);
    let sep = chars_of(".");
    let joined = join_chars(&parts, &sep);
    string_from(&joined)
}

/// The eight big-endian 16-bit groups of an IPv6 address.
pub open spec fn ipv6_segments(b: Seq<u8>) -> Seq<u16> {
    Seq::new(8, |i: int| be16(b[2 * i], b[2 * i + 1]))
}

/// Scan state after the first `k` groups while looking for the longest run
/// of zero groups: `(best_start, best_len, cur_start, cur_len)`; a later run
/// replaces the best one only when it is strictly longer.
pub open spec fn zero_span(segs: Seq<u16>, k: nat) -> (int, int, int, int)
    decreases k,
{
    if k == 0 {
        (0, 0, 0, 0)
    } else {
        let (bs, bl, cs, cl) = zero_span(segs, (k - 1) as nat);
        let i = k - 1;
        if segs[i] == 0 {
            let ncs = if cl == 0 {
                i
            } else {
                cs
            };
            let ncl = cl + 1;
            if ncl > bl {
                (ncs, ncl, ncs, ncl)
            } else {
                (bs, bl, ncs, ncl)
            }
        } else {
            (bs, bl, 0, 0)
        }
    }
}

/// Groups in lower-case hex without leading zeros, joined by colons.
pub open spec fn hex_groups(xs: Seq<u16>) -> Seq<char> {
    join(xs.map_values(|x: u16| hex_lower_min(x as nat)), ":"@)
}

/// Text of an IPv6 address as `std::net::Ipv6Addr` displays it: IPv4-mapped
/// addresses as `::ffff:a.b.c.d`, otherwise hex groups with the first longest
/// run of two or more zero groups written as `::`.
pub open spec fn ipv6_text(b: Seq<u8>) -> Seq<char> {
    let segs = ipv6_segments(b);
    if segs[0] == 0 && segs[1] == 0 && segs[2] == 0 && segs[3] == 0 && segs[4] == 0 && segs[5]
        == 0xffff {
        "::ffff:"@ + ipv4_text(b.subrange(12, 16))
    } else {
        let (s, l, _cs, _cl) = zero_span(segs, 8);
        if l > 1 {
            hex_groups(segs.take(s)) + "::"@ + hex_groups(segs.skip(s + l))
        } else {
            hex_groups(segs)
        }
    }
}

proof fn lemma_zero_span_bounds(segs: Seq<u16>, k: nat)
    ensures
        ({
            let (bs, bl, cs, cl) = zero_span(segs, k);
            &&& 0 <= bs && 0 <= bl && bs + bl <= k
            &&& 0 <= cs && 0 <= cl && cs + cl <= k
        }),
    decreases k,
{
    if k > 0 {
        lemma_zero_span_bounds(segs, (k - 1) as nat);
    }
}

fn hex_groups_exec(segs: &Vec<u16>, from: usize, to: usize) -> (r: Vec<char>)
    requires
        from <= to <= segs@.len(),
    ensures
        r@ == hex_groups(segs@.subrange(from as int, to as int)),
{
    let mut parts: Vec<Vec<char>> = Vec::new();
    let mut i: usize = from;
    while i < to
        invariant
            from <= i <= to <= segs@.len(),
            views(parts@) == segs@.subrange(from as int, i as int).map_values(
                |x: u16| hex_lower_min(x as nat),
            ),
        decreases to - i,
    {
        let mut h: Vec<char> = Vec::new();
        push_hex_lower_min(&mut h, segs[i] as u64);
        let ghost before = views(parts@);
        let ghost hv = h@;
        assert(hv =~= hex_lower_min(segs@[i as int] as nat));
        parts.push(h);
        assert(views(parts@) =~= before.push(hv));
        assert(segs@.subrange(from as int, i + 1).map_values(|x: u16| hex_lower_min(x as nat))
            =~= segs@.subrange(from as int, i as int).map_values(
            |x: u16| hex_lower_min(x as nat),
        ).push(hv));
        i = i + 1;
    }
    let sep = chars_of(":");
    join_chars(&parts, &sep)
}

/// `std::net::Ipv6Addr` text of sixteen bytes.
fn ipv6_str(b: &[u8]) -> (s: String)
    requires
        b@.len() == 16,
    ensures
        s@ == ipv6_text(b@),
{
    let mut segs: Vec<u16> = Vec::new();
    let mut i: usize = 0;
    while i < 8
        invariant
            b@.len() == 16,
            i <= 8,
            segs@.len() == i,
            forall|k: int| 0 <= k < i ==> segs@[k] == be16(b@[2 * k], b@[2 * k + 1]),
        decreases 8 - i,
    {
        segs.push(read_be16(b[2 * i], b[2 * i + 1]));
        i = i + 1;
    }
    assert(segs@ =~= ipv6_segments(b@));
    if segs[0] == 0 && segs[1] == 0 && segs[2] == 0 && segs[3] == 0 && segs[4] == 0 && segs[5]
        == 0xffff {
        let mut out = chars_of("::ffff:");
        let v4 = ipv4_str(slice_subrange(b, 12, 16));
        let v4c = chars_of(v4.as_str());
        push_all(&mut out, &v4c);
        return string_from(&out);
    }
    let mut bs: usize = 0;
    let mut bl: usize = 0;
    let mut cs: usize = 0;
    let mut cl: usize = 0;
    let mut k: usize = 0;
    while k < 8
        invariant
            segs@ == ipv6_segments(b@),
            k <= 8,
            zero_span(segs@, k as nat) == (bs as int, bl as int, cs as int, cl as int),
            bs + bl <= k,
            cs + cl <= k,
        decreases 8 - k,
    {
        proof {
            lemma_zero_span_bounds(segs@, (k + 1) as nat);
        }
        if segs[k] == 0 {
            if cl == 0 {
                cs = k;
            }
            cl = cl + 1;
            if cl > bl {
                bs = cs;
                bl = cl;
            }
        } else {
            cs = 0;
            cl = 0;
        }
        k = k + 1;
    }
    let out = if bl > 1 {
        let mut o = hex_groups_exec(&segs, 0, bs);
        let dc = chars_of("::");
        push_all(&mut o, &dc);
        let tail = hex_groups_exec(&segs, bs + bl, 8);
        push_all(&mut o, &tail);
        assert(segs@.subrange(0, bs as int) =~= segs@.take(bs as int));
        assert(segs@.subrange(bs + bl, 8) =~= segs@.skip(bs + bl));
        o
    } else {
        assert(segs@.subrange(0, 8) =~= segs@);
        hex_groups_exec(&segs, 0, 8)
    };
    string_from(&out)
}

// ---------------------------------------------------------------------------
// HTTP
// ---------------------------------------------------------------------------

/// What `parse_http_payload` recognises in a text.  After leading NUL
/// characters are dropped, the first line is split at the first two spaces.
/// With three parts whose first is neither `HTTP/1.1` nor `HTTP/1.0` it is a
/// request (method, path, version); otherwise a first line that starts with
/// `HTTP/` and has three parts is a response (version, status).  The body is
/// the whole text after the NULs.
pub open spec fn http_of_text(text: Seq<char>) -> Option<HttpView> {
    let trimmed = trim_start_char(text, '\0');
    let ls = lines_of(trimmed);
    if ls.len() == 0 {
        None
    } else {
        let line = ls[0];
        let parts = splitn_on(line, 3, ' ');
        if parts.len() >= 3 && parts[0] != "HTTP/1.1"@ && parts[0] != "HTTP/1.0"@ {
            Some(
                HttpView {
                    method: parts[0],
                    path: parts[1],
                    version: parts[2],
                    status: None,
                    body: trimmed,
                },
            )
        } else if starts_with(line, "HTTP/"@) && parts.len() >= 3 {
            Some(
                HttpView {
                    method: "RESPONSE"@,
                    path: Seq::empty(),
                    version: parts[0],
                    status: Some(parts[1]),
                    body: trimmed,
                },
            )
        } else {
            None
        }
    }
}

/// What `try_parse_http` recognises in payload bytes: the bytes decoded
/// lossily as UTF-8, leading NULs dropped, then [`http_of_text`].
pub open spec fn http_of_bytes(payload: Seq<u8>) -> Option<HttpView> {
    http_of_text(trim_start_char(utf8_lossy(payload), '\0'))
}

/// Recognises an HTTP request or response in a text.
pub fn parse_http_payload(text: &str) -> (r: Option<HttpInfo>)
    ensures
        opt_http(r) == http_of_text(text@),
{
    let all = chars_of(text);
    let trimmed = trim_start_matches_char(&all, '\0');
    let ls = lines_chars(&trimmed);
    if ls.len() == 0 {
        return None;
    }
    let line = &ls[0];
    let parts = splitn_chars(line, 3, ' ');
    let http11 = chars_of("HTTP/1.1");
    let http10 = chars_of("HTTP/1.0");
    if parts.len() >= 3 && !chars_eq(&parts[0], &http11) && !chars_eq(&parts[0], &http10) {
        let h = HttpInfo {
            method: string_from(&parts[0]),
            path: string_from(&parts[1]),
            version: string_from(&parts[2]),
            status: None,
            body: string_from(&trimmed),
        };
        return Some(h);
    }
    let prefix = chars_of("HTTP/");
    if starts_with_chars(line, &prefix) && parts.len() >= 3 {
        let h = HttpInfo {
            method: owned("RESPONSE"),
            path: String::new(),
            version: string_from(&parts[0]),
            status: Some(string_from(&parts[1])),
            body: string_from(&trimmed),
        };
        return Some(h);
    }
    None
}

proof fn lemma_splitn_suffix(x: Seq<char>, y: Seq<char>, n: nat, sep: char)
    requires
        !y.contains(sep) || splitn_on(x, n, sep).len() >= n,
    ensures
        splitn_on(x + y, n, sep) == splitn_on(x, n, sep).update(
            splitn_on(x, n, sep).len() - 1,
            splitn_on(x, n, sep).last() + y,
        ),
        splitn_on(x, n, sep).len() >= 1,
    decreases y.len(),
{
    crate::text::lemma_splitn_nonempty(x, n, sep);
    let r = splitn_on(x, n, sep);
    if y.len() == 0 {
        assert(x + y =~= x);
        assert(r.last() + y =~= r.last());
        assert(r.update(r.len() - 1, r.last()) =~= r);
    } else {
        let y0 = y.drop_last();
        assert(!y0.contains(sep) || r.len() >= n) by {
            if y0.contains(sep) && !y.contains(sep) {
                let i = choose|i: int| 0 <= i < y0.len() && y0[i] == sep;
                assert(y[i] == sep);
            }
        }
        lemma_splitn_suffix(x, y0, n, sep);
        let r0 = r.update(r.len() - 1, r.last() + y0);
        assert((x + y).drop_last() =~= x + y0);
        assert((x + y).last() == y.last());
        assert(r0.len() == r.len());
        assert(r0.last() == r.last() + y0);
        assert(y.last() != sep || r.len() >= n) by {
            if y.last() == sep && !y.contains(sep) {
                assert(y[y.len() - 1] == sep);
            }
        }
        assert((r.last() + y0).push(y.last()) =~= r.last() + y);
        assert(splitn_on(x + y, n, sep) =~= r.update(r.len() - 1, r.last() + y));
    }
}

proof fn lemma_splitn_sep(x: Seq<char>, n: nat, sep: char)
    requires
        splitn_on(x, n, sep).len() < n,
    ensures
        splitn_on(x.push(sep), n, sep) == splitn_on(x, n, sep).push(Seq::<char>::empty()),
{
    assert(x.push(sep).drop_last() =~= x);
}

proof fn lemma_splitn_three(a: Seq<char>, b: Seq<char>, c: Seq<char>)
    requires
        !a.contains(' '),
        !b.contains(' '),
    ensures
        splitn_on(a + " "@ + b + " "@ + c, 3, ' ') == seq![a, b, c],
{
    reveal_strlit(" ");
    assert(" "@ =~= seq![' ']);
    let e = Seq::<char>::empty();
    assert(!e.contains(' '));
    lemma_splitn_suffix(e, a, 3, ' ');
    assert(splitn_on(e, 3, ' ') =~= seq![e]);
    assert(e + a =~= a);
    assert(splitn_on(a, 3, ' ') =~= seq![a]);
    lemma_splitn_sep(a, 3, ' ');
    assert(a.push(' ') =~= a + " "@);
    assert(splitn_on(a + " "@, 3, ' ') =~= seq![a, e]);
    lemma_splitn_suffix(a + " "@, b, 3, ' ');
    assert(splitn_on(a + " "@ + b, 3, ' ') =~= seq![a, b]);
    lemma_splitn_sep(a + " "@ + b, 3, ' ');
    assert((a + " "@ + b).push(' ') =~= a + " "@ + b + " "@);
    assert(splitn_on(a + " "@ + b + " "@, 3, ' ') =~= seq![a, b, e]);
    lemma_splitn_suffix(a + " "@ + b + " "@, c, 3, ' ');
    assert(splitn_on(a + " "@ + b + " "@ + c, 3, ' ') =~= seq![a, b, c]);
}

proof fn lemma_first_line(line: Seq<char>, rest: Seq<char>)
    requires
        !line.contains('\n'),
    ensures
        lines_of(line + "\r\n"@ + rest).len() >= 1,
        lines_of(line + "\r\n"@ + rest)[0] == line,
{
    reveal_strlit("\r\n");
    let x = line.push('\r');
    assert(line + "\r\n"@ + rest =~= x + seq!['\n'] + rest);
    assert(!x.contains('\n')) by {
        if x.contains('\n') {
            let i = choose|i: int| 0 <= i < x.len() && x[i] == '\n';
            if i < line.len() {
                assert(line[i] == '\n');
            }
        }
    }
    crate::text::lemma_split_plain(x, '\n');
    crate::text::lemma_split_concat(x, rest, '\n');
    crate::text::lemma_split_nonempty(rest, '\n');
    let pieces = crate::text::split_on(x + seq!['\n'] + rest, '\n');
    assert(pieces.len() >= 2);
    assert(pieces[0] == x);
    assert(pieces.drop_last()[0] == x);
    assert(crate::text::strip_cr(x) =~= line);
}

/// A text whose first line is `HTTP/1.0 <code> <reason>` or
/// `HTTP/1.1 <code> <reason>` (ended by CRLF) is a response: method
/// `RESPONSE`, no path, that version, status `<code>`, and the whole text as
/// body.
pub proof fn lemma_http_response_line(version: Seq<char>, code: Seq<char>, reason: Seq<char>, rest: Seq<char>)
    requires
        version == "HTTP/1.0"@ || version == "HTTP/1.1"@,
        !code.contains(' '),
        !code.contains('\n'),
        !reason.contains('\n'),
    ensures
        http_of_text(version + " "@ + code + " "@ + reason + "\r\n"@ + rest) == Some(
            HttpView {
                method: "RESPONSE"@,
                path: Seq::empty(),
                version: version,
                status: Some(code),
                body: version + " "@ + code + " "@ + reason + "\r\n"@ + rest,
            },
        ),
{
    reveal_strlit("HTTP/1.0");
    reveal_strlit("HTTP/1.1");
    reveal_strlit("HTTP/");
    reveal_strlit(" ");
    let line = version + " "@ + code + " "@ + reason;
    let text = line + "\r\n"@ + rest;
    assert(!version.contains(' ') && !version.contains('\n'));
    assert(!line.contains('\n')) by {
        if line.contains('\n') {
            let i = choose|i: int| 0 <= i < line.len() && line[i] == '\n';
            let v = version.len() as int;
            let c = code.len() as int;
            if i < v {
                assert(version[i] == '\n');
            } else if i == v {
                assert(line[i] == ' ');
            } else if i < v + 1 + c {
                assert(code[i - v - 1] == '\n');
            } else if i == v + 1 + c {
                assert(line[i] == ' ');
            } else {
                assert(reason[i - v - 2 - c] == '\n');
            }
        }
    }
    assert(text[0] == 'H');
    assert(crate::text::trim_start_char(text, '\0') == text);
    lemma_first_line(line, rest);
    lemma_splitn_three(version, code, reason);
    assert(line.take(5) =~= "HTTP/"@);
    assert(starts_with(line, "HTTP/"@));
}

/// A text whose first line is `<method> <path> <version>` (ended by CRLF)
/// with a method that is neither `HTTP/1.0` nor `HTTP/1.1` is a request with
/// those three parts, no status, and the whole text as body.
pub proof fn lemma_http_request_line(method: Seq<char>, path: Seq<char>, version: Seq<char>, rest: Seq<char>)
    requires
        method.len() > 0,
        method[0] != '\0',
        method != "HTTP/1.0"@,
        method != "HTTP/1.1"@,
        !method.contains(' '),
        !method.contains('\n'),
        !path.contains(' '),
        !path.contains('\n'),
        !version.contains('\n'),
    ensures
        http_of_text(method + " "@ + path + " "@ + version + "\r\n"@ + rest) == Some(
            HttpView {
                method: method,
                path: path,
                version: version,
                status: None,
                body: method + " "@ + path + " "@ + version + "\r\n"@ + rest,
            },
        ),
{
    reveal_strlit(" ");
    let line = method + " "@ + path + " "@ + version;
    let text = line + "\r\n"@ + rest;
    assert(!line.contains('\n')) by {
        if line.contains('\n') {
            let i = choose|i: int| 0 <= i < line.len() && line[i] == '\n';
            let v = method.len() as int;
            let c = path.len() as int;
            if i < v {
                assert(method[i] == '\n');
            } else if i == v {
                assert(line[i] == ' ');
            } else if i < v + 1 + c {
                assert(path[i - v - 1] == '\n');
            } else if i == v + 1 + c {
                assert(line[i] == ' ');
            } else {
                assert(version[i - v - 2 - c] == '\n');
            }
        }
    }
    assert(text[0] == method[0]);
    assert(crate::text::trim_start_char(text, '\0') == text);
    lemma_first_line(line, rest);
    lemma_splitn_three(method, path, version);
}

/// Recognises HTTP in payload bytes (lossy UTF-8, leading NULs skipped).
fn try_parse_http(payload: &[u8]) -> (r: Option<HttpInfo>)
    ensures
        opt_http(r) == http_of_bytes(payload@),
{
    let text = decode_lossy(payload);
    let all = chars_of(text.as_str());
    let trimmed = trim_start_matches_char(&all, '\0');
    let t = string_from(&trimmed);
    parse_http_payload(t.as_str())
}

// ---------------------------------------------------------------------------
// Layer decoders
// ---------------------------------------------------------------------------

/// TCP header: ports and flags; when the data offset is sane, the payload
/// size and the HTTP found in the payload.  Returns the protocol label and
/// the updated packet.
pub open spec fn tcp_layer(inner: Seq<u8>, p: PacketView) -> (Seq<char>, PacketView) {
    if inner.len() < 20 {
        ("tcp-short"@, p)
    } else {
        let off = (inner[12] / 16) as int * 4;
        let p1 = PacketView {
            src_port: Some(be16(inner[0], inner[1])),
            dst_port: Some(be16(inner[2], inner[3])),
            tcp_flags: Some(flags_text(inner[13])),
            ..p
        };
        if off > 0 && off <= inner.len() {
            (
                "TCP"@,
                PacketView {
                    payload_size: (inner.len() - off) as usize,
                    http: http_of_bytes(inner.skip(off)),
                    ..p1
                },
            )
        } else {
            ("TCP"@, p1)
        }
    }
}

/// UDP header: ports, payload size and the HTTP found in the payload.
pub open spec fn udp_layer(inner: Seq<u8>, p: PacketView) -> (Seq<char>, PacketView) {
    if inner.len() < 8 {
        ("udp-short"@, p)
    } else {
        (
            "UDP"@,
            PacketView {
                src_port: Some(be16(inner[0], inner[1])),
                dst_port: Some(be16(inner[2], inner[3])),
                payload_size: (inner.len() - 8) as usize,
                http: http_of_bytes(inner.skip(8)),
                ..p
            },
        )
    }
}

/// IPv4 header: addresses, then TCP (6) or UDP (17) after `IHL * 4` bytes.
pub open spec fn ipv4_layer(payload: Seq<u8>, p: PacketView) -> (Seq<char>, PacketView) {
    if payload.len() < 20 {
        ("ipv4-incomplete"@, p)
    } else {
        let ihl = (payload[0] % 16) as int * 4;
        let p1 = PacketView {
            src_ip: Some(ipv4_text(payload.subrange(12, 16))),
            dst_ip: Some(ipv4_text(payload.subrange(16, 20))),
            ..p
        };
        let inner = if ihl > 0 && ihl <= payload.len() {
            payload.skip(ihl)
        } else {
            Seq::empty()
        };
        if payload[9] == 6 {
            tcp_layer(inner, p1)
        } else if payload[9] == 17 {
            udp_layer(inner, p1)
        } else {
            ("ipv4-other"@, p1)
        }
    }
}

/// IPv6 header: addresses, then TCP or UDP by the next-header byte.
pub open spec fn ipv6_layer(payload: Seq<u8>, p: PacketView) -> (Seq<char>, PacketView) {
    if payload.len() < 40 {
        ("ipv6-incomplete"@, p)
    } else {
        let p1 = PacketView {
            src_ip: Some(ipv6_text(payload.subrange(8, 24))),
            dst_ip: Some(ipv6_text(payload.subrange(24, 40))),
            ..p
        };
        let inner = payload.skip(40);
        if payload[6] == 6 {
            tcp_layer(inner, p1)
        } else if payload[6] == 17 {
            udp_layer(inner, p1)
        } else {
            ("ipv6-other"@, p1)
        }
    }
}

/// IPv4 or IPv6 by the version nibble of the first byte.
pub open spec fn ip_auto_layer(payload: Seq<u8>, p: PacketView) -> (Seq<char>, PacketView) {
    if payload.len() == 0 {
        ("ip-unknown"@, p)
    } else if payload[0] / 16 == 4 {
        ipv4_layer(payload, p)
    } else if payload[0] / 16 == 6 {
        ipv6_layer(payload, p)
    } else {
        ("ip-unknown"@, p)
    }
}

/// A packet with only sequence number, time, length and protocol label.
pub open spec fn blank_view(seq: u64, ts: u64, len: usize, label: Seq<char>) -> PacketView {
    PacketView {
        seq: seq,
        timestamp_ns: ts,
        src_mac: Seq::empty(),
        dst_mac: Seq::empty(),
        ethertype: 0,
        protocol: label,
        src_ip: None,
        dst_ip: None,
        src_port: None,
        dst_port: None,
        tcp_flags: None,
        payload_size: len,
        http: None,
    }
}

/// The packet with the protocol label that a layer decoder returned.
pub open spec fn labelled(r: (Seq<char>, PacketView)) -> PacketView {
    PacketView { protocol: r.0, ..r.1 }
}

/// `ethertype-0xHHHH` label of an unknown ethertype.
pub open spec fn ethertype_label(t: u16) -> Seq<char> {
    "ethertype-0x"@ + hex_upper_fixed(t as nat, 4)
}

/// An Ethernet frame: MAC addresses and ethertype, then IPv4, IPv6, ARP or a
/// VLAN tag.  (For a VLAN tag the inner ethertype is read at bytes 12..14 of
/// the payload and the inner packet starts at byte 16.)
pub open spec fn ethernet_view(data: Seq<u8>, seq: u64, ts: u64) -> PacketView {
    let base = blank_view(seq, ts, 0, "unknown"@);
    if data.len() < 14 {
        base
    } else {
        let et = be16(data[12], data[13]);
        let p1 = PacketView {
            dst_mac: mac_text(data.subrange(0, 6)),
            src_mac: mac_text(data.subrange(6, 12)),
            ethertype: et,
            ..base
        };
        let payload = data.skip(14);
        if et == 0x0800 {
            labelled(ipv4_layer(payload, p1))
        } else if et == 0x86DD {
            labelled(ipv6_layer(payload, p1))
        } else if et == 0x0806 {
            PacketView { protocol: "ARP"@, ..p1 }
        } else if et == 0x8100 {
            if payload.len() >= 16 {
                let inner_et = be16(payload[12], payload[13]);
                let p2 = PacketView { ethertype: inner_et, ..p1 };
                let inner = payload.skip(16);
                if inner_et == 0x0800 {
                    labelled(ipv4_layer(inner, p2))
                } else if inner_et == 0x86DD {
                    labelled(ipv6_layer(inner, p2))
                } else {
                    PacketView { protocol: "vlan-unknown"@, ..p2 }
                }
            } else {
                p1
            }
        } else {
            PacketView { protocol: ethertype_label(et), ..p1 }
        }
    }
}

/// The BSD loopback address families that mean IPv6.
pub open spec fn is_v6_family(v: u32) -> bool {
    v == 23 || v == 24 || v == 28 || v == 30
}

/// A frame of the given link kind, as `parse_link_frame` decodes it.
#[verifier::opaque]
pub open spec fn link_frame_view(data: Seq<u8>, seq: u64, ts: u64, kind: LinkKind) -> PacketView {
    match kind {
        LinkKind::Ethernet => ethernet_view(data, seq, ts),
        LinkKind::Null => {
            let p = blank_view(seq, ts, data.len() as usize, "IP"@);
            if data.len() > 4 {
                let le = le32(data[0], data[1], data[2], data[3]);
                let be = be32(data[0], data[1], data[2], data[3]);
                let payload = data.skip(4);
                if le == 2 || be == 2 {
                    labelled(ipv4_layer(payload, p))
                } else if is_v6_family(le) || is_v6_family(be) {
                    labelled(ipv6_layer(payload, p))
                } else {
                    labelled(ip_auto_layer(payload, p))
                }
            } else {
                p
            }
        },
        LinkKind::Raw => labelled(
            ip_auto_layer(data, blank_view(seq, ts, data.len() as usize, "IP"@)),
        ),
        LinkKind::LinuxSll => {
            let p = blank_view(seq, ts, data.len() as usize, "SLL"@);
            if data.len() > 16 {
                let et = be16(data[14], data[15]);
                let p1 = PacketView { ethertype: et, ..p };
                let payload = data.skip(16);
                if et == 0x0800 {
                    labelled(ipv4_layer(payload, p1))
                } else if et == 0x86DD {
                    labelled(ipv6_layer(payload, p1))
                } else if et == 0x0806 {
                    PacketView { protocol: "ARP"@, ..p1 }
                } else {
                    PacketView { protocol: ethertype_label(et), ..p1 }
                }
            } else {
                p
            }
        },
        LinkKind::Other => blank_view(seq, ts, data.len() as usize, "非以太网帧"@),
    }
}

/// An Ethernet frame that carries IPv4 (ethertype bytes `08 00`) and TCP
/// (protocol byte 6), with an IPv4 header length `4 * IHL` and a TCP data
/// offset `4 * d` that fit: the packet is TCP, its ports are read big-endian
/// from the first four bytes of the segment, its payload is everything after
/// the `4 * d` header bytes (options included in the header), and its HTTP
/// is the one found in that payload.  With a data offset of 0 or past the
/// segment's end, no payload and no HTTP are taken.
pub proof fn lemma_ethernet_tcp_segment(data: Seq<u8>, seq: u64, ts: u64)
    requires
        data.len() <= usize::MAX,
        data.len() >= 34,
        data[12] == 0x08,
        data[13] == 0x00,
        data[23] == 6,
        (data[14] % 16) as int * 4 > 0,
        14 + (data[14] % 16) as int * 4 + 20 <= data.len(),
    ensures
        ({
            let ihl = (data[14] % 16) as int * 4;
            let seg = data.skip(14 + ihl);
            let d = (seg[12] / 16) as int * 4;
            let p = link_frame_view(data, seq, ts, LinkKind::Ethernet);
            &&& p.protocol == "TCP"@
            &&& p.src_port == Some((seg[0] as int * 256 + seg[1] as int) as u16)
            &&& p.dst_port == Some((seg[2] as int * 256 + seg[3] as int) as u16)
            &&& (0 < d <= seg.len() ==> p.payload_size == seg.len() - d && p.http == http_of_bytes(
                seg.skip(d),
            ))
            &&& (d == 0 || d > seg.len() ==> p.payload_size == 0 && p.http is None)
        }),
{
    let payload = data.skip(14);
    let ihl = (data[14] % 16) as int * 4;
    assert(link_frame_view(data, seq, ts, LinkKind::Ethernet) == ethernet_view(data, seq, ts)) by {
        reveal(link_frame_view);
    }
    assert(payload[0] == data[14]);
    assert(payload[9] == data[23]);
    assert(be16(data[12], data[13]) == 0x0800);
    assert(payload.skip(ihl) =~= data.skip(14 + ihl));
    let base = blank_view(seq, ts, 0, "unknown"@);
    let p1 = PacketView {
        dst_mac: mac_text(data.subrange(0, 6)),
        src_mac: mac_text(data.subrange(6, 12)),
        ethertype: 0x0800,
        ..base
    };
    assert(ethernet_view(data, seq, ts) == labelled(ipv4_layer(payload, p1)));
    lemma_ipv4_tcp(payload, p1);
}

proof fn lemma_ipv4_tcp(payload: Seq<u8>, p: PacketView)
    requires
        payload.len() <= usize::MAX,
        payload.len() >= 20,
        payload[9] == 6,
        (payload[0] % 16) as int * 4 > 0,
        (payload[0] % 16) as int * 4 + 20 <= payload.len(),
    ensures
        ({
            let seg = payload.skip((payload[0] % 16) as int * 4);
            let d = (seg[12] / 16) as int * 4;
            let r = labelled(ipv4_layer(payload, p));
            &&& r.protocol == "TCP"@
            &&& r.src_port == Some((seg[0] as int * 256 + seg[1] as int) as u16)
            &&& r.dst_port == Some((seg[2] as int * 256 + seg[3] as int) as u16)
            &&& (0 < d <= seg.len() ==> r.payload_size == seg.len() - d && r.http == http_of_bytes(
                seg.skip(d),
            ))
            &&& (d == 0 || d > seg.len() ==> r.payload_size == p.payload_size && r.http == p.http)
        }),
{
    let ihl = (payload[0] % 16) as int * 4;
    let p1 = PacketView {
        src_ip: Some(ipv4_text(payload.subrange(12, 16))),
        dst_ip: Some(ipv4_text(payload.subrange(16, 20))),
        ..p
    };
    let seg = payload.skip(ihl);
    assert(ipv4_layer(payload, p) == tcp_layer(seg, p1));
    let d = (seg[12] / 16) as int * 4;
    let q = tcp_layer(seg, p1);
    assert(q.0 == "TCP"@);
    assert(q.1.src_port == Some(be16(seg[0], seg[1])));
    assert(q.1.dst_port == Some(be16(seg[2], seg[3])));
    if 0 < d <= seg.len() {
        assert(q.1.payload_size == seg.len() - d);
        assert(q.1.http == http_of_bytes(seg.skip(d)));
    } else {
        assert(q.1.payload_size == p.payload_size);
    }
}

/// The same for raw IP frames (version nibble 4, protocol byte 6): the
/// payload after a TCP header of `4 * d` bytes, and its HTTP.
pub proof fn lemma_raw_tcp_segment(data: Seq<u8>, seq: u64, ts: u64)
    requires
        data.len() <= usize::MAX,
        data.len() >= 20,
        data[0] / 16 == 4,
        data[9] == 6,
        (data[0] % 16) as int * 4 > 0,
        (data[0] % 16) as int * 4 + 20 <= data.len(),
    ensures
        ({
            let seg = data.skip((data[0] % 16) as int * 4);
            let d = (seg[12] / 16) as int * 4;
            let p = link_frame_view(data, seq, ts, LinkKind::Raw);
            &&& p.protocol == "TCP"@
            &&& (0 < d <= seg.len() ==> p.payload_size == seg.len() - d && p.http == http_of_bytes(
                seg.skip(d),
            ))
        }),
{
    let p0 = blank_view(seq, ts, data.len() as usize, "IP"@);
    assert(link_frame_view(data, seq, ts, LinkKind::Raw) == labelled(ip_auto_layer(data, p0))) by {
        reveal(link_frame_view);
    }
    assert(ip_auto_layer(data, p0) == ipv4_layer(data, p0));
    lemma_ipv4_tcp(data, p0);
}

/// An Ethernet frame that carries IPv4 and UDP (protocol byte 17) with an
/// IPv4 header length that fits: the packet is UDP, its ports are read
/// big-endian from the first four bytes of the datagram, its payload is
/// everything after the 8-byte UDP header, and its HTTP is the one found
/// in that payload.
pub proof fn lemma_ethernet_udp_datagram(data: Seq<u8>, seq: u64, ts: u64)
    requires
        data.len() <= usize::MAX,
        data.len() >= 34,
        data[12] == 0x08,
        data[13] == 0x00,
        data[23] == 17,
        (data[14] % 16) as int * 4 > 0,
        14 + (data[14] % 16) as int * 4 + 8 <= data.len(),
    ensures
        ({
            let dg = data.skip(14 + (data[14] % 16) as int * 4);
            let p = link_frame_view(data, seq, ts, LinkKind::Ethernet);
            &&& p.protocol == "UDP"@
            &&& p.src_port == Some((dg[0] as int * 256 + dg[1] as int) as u16)
            &&& p.dst_port == Some((dg[2] as int * 256 + dg[3] as int) as u16)
            &&& p.payload_size == dg.len() - 8
            &&& p.http == http_of_bytes(dg.skip(8))
        }),
{
    let payload = data.skip(14);
    let ihl = (data[14] % 16) as int * 4;
    assert(link_frame_view(data, seq, ts, LinkKind::Ethernet) == ethernet_view(data, seq, ts)) by {
        reveal(link_frame_view);
    }
    assert(payload[0] == data[14]);
    assert(payload[9] == data[23]);
    assert(be16(data[12], data[13]) == 0x0800);
    let dg = payload.skip(ihl);
    assert(dg =~= data.skip(14 + ihl));
    let base = blank_view(seq, ts, 0, "unknown"@);
    let p1 = PacketView {
        dst_mac: mac_text(data.subrange(0, 6)),
        src_mac: mac_text(data.subrange(6, 12)),
        ethertype: 0x0800,
        ..base
    };
    assert(ethernet_view(data, seq, ts) == labelled(ipv4_layer(payload, p1)));
    let p2 = PacketView {
        src_ip: Some(ipv4_text(payload.subrange(12, 16))),
        dst_ip: Some(ipv4_text(payload.subrange(16, 20))),
        ..p1
    };
    assert(ipv4_layer(payload, p1) == udp_layer(dg, p2));
}

fn parse_tcp(inner: &[u8], p: &mut ParsedPacket) -> (label: String)
    ensures
        (label@, final(p)@) == tcp_layer(inner@, old(p)@),
{
    if inner.len() < 20 {
        return owned("tcp-short");
    }
    p.src_port = Some(read_be16(inner[0], inner[1]));
    p.dst_port = Some(read_be16(inner[2], inner[3]));
    let data_offset: usize = (inner[12] / 16) as usize * 4;
    p.tcp_flags = Some(format_tcp_flags(inner[13]));
    if data_offset > 0 && data_offset <= inner.len() {
        p.payload_size = inner.len() - data_offset;
        let payload = slice_subrange(inner, data_offset, inner.len());
        assert(payload@ =~= inner@.skip(data_offset as int));
        p.http = try_parse_http(payload);
    }
    owned("TCP")
}

fn parse_udp(inner: &[u8], p: &mut ParsedPacket) -> (label: String)
    ensures
        (label@, final(p)@) == udp_layer(inner@, old(p)@),
{
    if inner.len() < 8 {
        return owned("udp-short");
    }
    p.src_port = Some(read_be16(inner[0], inner[1]));
    p.dst_port = Some(read_be16(inner[2], inner[3]));
    p.payload_size = inner.len() - 8;
    let payload = slice_subrange(inner, 8, inner.len());
    assert(payload@ =~= inner@.skip(8));
    p.http = try_parse_http(payload);
    owned("UDP")
}

fn parse_ipv4(payload: &[u8], p: &mut ParsedPacket) -> (label: String)
    ensures
        (label@, final(p)@) == ipv4_layer(payload@, old(p)@),
{
    if payload.len() < 20 {
        return owned("ipv4-incomplete");
    }
    let ihl: usize = (payload[0] % 16) as usize * 4;
    let protocol = payload[9];
    p.src_ip = Some(ipv4_str(slice_subrange(payload, 12, 16)));
    p.dst_ip = Some(ipv4_str(slice_subrange(payload, 16, 20)));
    let inner: &[u8] = if ihl > 0 && ihl <= payload.len() {
        let r = slice_subrange(payload, ihl, payload.len());
        assert(r@ =~= payload@.skip(ihl as int));
        r
    } else {
        let r = slice_subrange(payload, 0, 0);
        assert(r@ =~= Seq::<u8>::empty());
        r
    };
    if protocol == 6 {
        parse_tcp(inner, p)
    } else if protocol == 17 {
        parse_udp(inner, p)
    } else {
        owned("ipv4-other")
    }
}

fn parse_ipv6(payload: &[u8], p: &mut ParsedPacket) -> (label: String)
    ensures
        (label@, final(p)@) == ipv6_layer(payload@, old(p)@),
{
    if payload.len() < 40 {
        return owned("ipv6-incomplete");
    }
    let nh = payload[6];
    p.src_ip = Some(ipv6_str(slice_subrange(payload, 8, 24)));
    p.dst_ip = Some(ipv6_str(slice_subrange(payload, 24, 40)));
    let inner = slice_subrange(payload, 40, payload.len());
    assert(inner@ =~= payload@.skip(40));
    if nh == 6 {
        parse_tcp(inner, p)
    } else if nh == 17 {
        parse_udp(inner, p)
    } else {
        owned("ipv6-other")
    }
}

/// Dispatches IPv4 / IPv6 by the version nibble of the first byte.
fn parse_ip_auto(payload: &[u8], p: &mut ParsedPacket) -> (label: String)
    ensures
        (label@, final(p)@) == ip_auto_layer(payload@, old(p)@),
{
    if payload.len() == 0 {
        return owned("ip-unknown");
    }
    let version = payload[0] / 16;
    if version == 4 {
        parse_ipv4(payload, p)
    } else if version == 6 {
        parse_ipv6(payload, p)
    } else {
        owned("ip-unknown")
    }
}

/// A packet skeleton with sequence number, time, length and label.
fn blank_frame(seq: u64, timestamp_ns: u64, len: usize, label: &str) -> (p: ParsedPacket)
    ensures
        p@ == blank_view(seq, timestamp_ns, len, label@),
{
    ParsedPacket {
        seq,
        timestamp_ns,
        src_mac: String::new(),
        dst_mac: String::new(),
        ethertype: 0,
        protocol: owned(label),
        src_ip: None,
        dst_ip: None,
        src_port: None,
        dst_port: None,
        tcp_flags: None,
        payload_size: len,
        http: None,
    }
}

/// `ethertype-0xHHHH` text.
fn ethertype_text(t: u16) -> (s: String)
    ensures
        s@ == ethertype_label(t),
{
    let mut v = chars_of("ethertype-0x");
    push_hex_upper_fixed(&mut v, t as u64, 4);
    string_from(&v)
}

fn parse_ethernet(data: &[u8], seq: u64, ts: u64) -> (p: ParsedPacket)
    ensures
        p@ == ethernet_view(data@, seq, ts),
{
    let mut packet = blank_frame(seq, ts, 0, "unknown");
    if data.len() < 14 {
        return packet;
    }
    packet.dst_mac = mac_str(slice_subrange(data, 0, 6));
    packet.src_mac = mac_str(slice_subrange(data, 6, 12));
    packet.ethertype = read_be16(data[12], data[13]);
    let payload = slice_subrange(data, 14, data.len());
    assert(payload@ =~= data@.skip(14));
    let et = packet.ethertype;
    if et == 0x0800 {
        packet.protocol = parse_ipv4(payload, &mut packet);
    } else if et == 0x86DD {
        packet.protocol = parse_ipv6(payload, &mut packet);
    } else if et == 0x0806 {
        packet.protocol = owned("ARP");
    } else if et == 0x8100 {
        if payload.len() >= 16 {
            let inner_ethertype = read_be16(payload[12], payload[13]);
            let inner_payload = slice_subrange(payload, 16, payload.len());
            assert(inner_payload@ =~= payload@.skip(16));
            packet.ethertype = inner_ethertype;
            if inner_ethertype == 0x0800 {
                packet.protocol = parse_ipv4(inner_payload, &mut packet);
            } else if inner_ethertype == 0x86DD {
                packet.protocol = parse_ipv6(inner_payload, &mut packet);
            } else {
                packet.protocol = owned("vlan-unknown");
            }
        }
    } else {
        packet.protocol = ethertype_text(et);
    }
    packet
}

/// Decodes one link-layer frame of the given kind.
pub fn parse_link_frame(data: &[u8], seq: u64, timestamp_ns: u64, kind: LinkKind) -> (p:
    ParsedPacket)
    ensures
        p@ == link_frame_view(data@, seq, timestamp_ns, kind),
{
    reveal(link_frame_view);
    match kind {
        LinkKind::Ethernet => parse_ethernet(data, seq, timestamp_ns),
        LinkKind::Null => {
            let mut p = blank_frame(seq, timestamp_ns, data.len(), "IP");
            if data.len() > 4 {
                let le = read_be32(data[3], data[2], data[1], data[0]);
                let be = read_be32(data[0], data[1], data[2], data[3]);
                let is_v4 = le == 2 || be == 2;
                let is_v6 = le == 23 || le == 24 || le == 28 || le == 30 || be == 23 || be == 24
                    || be == 28 || be == 30;
                let payload = slice_subrange(data, 4, data.len());
                assert(payload@ =~= data@.skip(4));
                p.protocol = if is_v4 {
                    parse_ipv4(payload, &mut p)
                } else if is_v6 {
                    parse_ipv6(payload, &mut p)
                } else {
                    parse_ip_auto(payload, &mut p)
                };
            }
            p
        },
        LinkKind::Raw => {
            let mut p = blank_frame(seq, timestamp_ns, data.len(), "IP");
            p.protocol = parse_ip_auto(data, &mut p);
            p
        },
        LinkKind::LinuxSll => {
            let mut p = blank_frame(seq, timestamp_ns, data.len(), "SLL");
            if data.len() > 16 {
                let ethertype = read_be16(data[14], data[15]);
                p.ethertype = ethertype;
                let payload = slice_subrange(data, 16, data.len());
                assert(payload@ =~= data@.skip(16));
                p.protocol = if ethertype == 0x0800 {
                    parse_ipv4(payload, &mut p)
                } else if ethertype == 0x86DD {
                    parse_ipv6(payload, &mut p)
                } else if ethertype == 0x0806 {
                    owned("ARP")
                } else {
                    ethertype_text(ethertype)
                };
            }
            p
        },
        LinkKind::Other => blank_frame(seq, timestamp_ns, data.len(), "非以太网帧"),
    }
}

// ---------------------------------------------------------------------------
// Classic pcap files
// ---------------------------------------------------------------------------

/// Why bytes are not a readable classic pcap file.
#[derive(Clone, Debug)]
pub enum PcapError {
    /// The data ends inside the file header or inside a packet's data.
    Truncated,
    /// The file is pcapng (magic `0A 0D 0D 0A`), which is not supported.
    PcapNg,
    /// The magic number is no classic pcap variant; lower-case hex of it.
    BadMagic(String),
    /// The link type is not Ethernet, NULL/LOOP, RAW or LINUX_SLL.
    UnsupportedLinkType(i32),
}

/// The mathematical content of a [`PcapError`].
pub enum PcapFault {
    Truncated,
    PcapNg,
    BadMagic(Seq<char>),
    UnsupportedLinkType(i32),
}

impl View for PcapError {
    type V = PcapFault;

    open spec fn view(&self) -> PcapFault {
        match self {
            PcapError::Truncated => PcapFault::Truncated,
            PcapError::PcapNg => PcapFault::PcapNg,
            PcapError::BadMagic(s) => PcapFault::BadMagic(s@),
            PcapError::UnsupportedLinkType(t) => PcapFault::UnsupportedLinkType(*t),
        }
    }
}

/// The signed reading of a 32-bit link type field.
pub open spec fn i32_of(v: u32) -> i32 {
    if v <= 0x7fff_ffff {
        v as i32
    } else {
        (v - 0x1_0000_0000) as i32
    }
}

/// The file header: byte order and time precision from the magic number,
/// then the link type from bytes 20..24.
pub open spec fn pcap_header(data: Seq<u8>) -> Result<(bool, bool, LinkKind), PcapFault> {
    if data.len() < 4 {
        Err(PcapFault::Truncated)
    } else {
        let m = data.subrange(0, 4);
        let magic: Option<(bool, bool)> = if m == seq![0xD4u8, 0xC3u8, 0xB2u8, 0xA1u8] {
            Some((true, false))
        } else if m == seq![0xA1u8, 0xB2u8, 0xC3u8, 0xD4u8] {
            Some((false, false))
        } else if m == seq![0x4Du8, 0x3Cu8, 0xB2u8, 0xA1u8] {
            Some((true, true))
        } else if m == seq![0xA1u8, 0xB2u8, 0x3Cu8, 0x4Du8] {
            Some((false, true))
        } else {
            None
        };
        match magic {
            None => if m == seq![0x0Au8, 0x0Du8, 0x0Du8, 0x0Au8] {
                Err(PcapFault::PcapNg)
            } else {
                Err(PcapFault::BadMagic(hex_lower(m)))
            },
            Some((le, nano)) => if data.len() < 24 {
                Err(PcapFault::Truncated)
            } else {
                let lt = i32_of(u32_of(data.subrange(20, 24), le));
                if link_kind_of(lt) == LinkKind::Other {
                    Err(PcapFault::UnsupportedLinkType(lt))
                } else {
                    Ok((le, nano, link_kind_of(lt)))
                }
            },
        }
    }
}

/// Capture time in nanoseconds from seconds and the fractional field
/// (microseconds, or nanoseconds in nanosecond files).
pub open spec fn ts_ns(sec: u32, frac: u32, nano: bool) -> u64 {
    (sec as int * 1_000_000_000 + frac as int * (if nano {
        1int
    } else {
        1000int
    })) as u64
}

/// The packet records from byte offset `off` on, numbered from `seq`.  A
/// record header that does not fit ends the file; a zero capture length
/// skips a number; data cut short is an error.
pub open spec fn pcap_records(
    data: Seq<u8>,
    le: bool,
    nano: bool,
    kind: LinkKind,
    off: nat,
    seq: nat,
) -> Result<Seq<PacketView>, PcapFault>
    decreases data.len() - off,
{
    if off + 16 > data.len() {
        Ok(Seq::empty())
    } else {
        let o = off as int;
        let sec = u32_of(data.subrange(o, o + 4), le);
        let frac = u32_of(data.subrange(o + 4, o + 8), le);
        let caplen = u32_of(data.subrange(o + 8, o + 12), le) as nat;
        let c = caplen as int;
        if caplen == 0 {
            pcap_records(data, le, nano, kind, off + 16, seq + 1)
        } else if off + 16 + caplen > data.len() {
            Err(PcapFault::Truncated)
        } else {
            let pkt = link_frame_view(
                data.subrange(o + 16, o + 16 + c),
                seq as u64,
                ts_ns(sec, frac, nano),
                kind,
            );
            match pcap_records(data, le, nano, kind, off + 16 + caplen, seq + 1) {
                Ok(rest) => Ok(seq![pkt] + rest),
                Err(e) => Err(e),
            }
        }
    }
}

/// The packets of a classic pcap file, or why it cannot be read.
pub open spec fn pcap_view(data: Seq<u8>) -> Result<Seq<PacketView>, PcapFault> {
    match pcap_header(data) {
        Err(e) => Err(e),
        Ok((le, nano, kind)) => pcap_records(data, le, nano, kind, 24, 0),
    }
}

proof fn lemma_layers_keep_time(x: Seq<u8>, p: PacketView)
    ensures
        tcp_layer(x, p).1.timestamp_ns == p.timestamp_ns,
        udp_layer(x, p).1.timestamp_ns == p.timestamp_ns,
        ipv4_layer(x, p).1.timestamp_ns == p.timestamp_ns,
        ipv6_layer(x, p).1.timestamp_ns == p.timestamp_ns,
        ip_auto_layer(x, p).1.timestamp_ns == p.timestamp_ns,
{
    if x.len() >= 20 {
        let ihl = (x[0] % 16) as int * 4;
        let inner = if ihl > 0 && ihl <= x.len() {
            x.skip(ihl)
        } else {
            Seq::empty()
        };
        let p1 = PacketView {
            src_ip: Some(ipv4_text(x.subrange(12, 16))),
            dst_ip: Some(ipv4_text(x.subrange(16, 20))),
            ..p
        };
        assert(tcp_layer(inner, p1).1.timestamp_ns == p.timestamp_ns);
        assert(udp_layer(inner, p1).1.timestamp_ns == p.timestamp_ns);
    }
    if x.len() >= 40 {
        let p1 = PacketView {
            src_ip: Some(ipv6_text(x.subrange(8, 24))),
            dst_ip: Some(ipv6_text(x.subrange(24, 40))),
            ..p
        };
        assert(tcp_layer(x.skip(40), p1).1.timestamp_ns == p.timestamp_ns);
        assert(udp_layer(x.skip(40), p1).1.timestamp_ns == p.timestamp_ns);
    }
}

proof fn lemma_ethernet_keeps_time(data: Seq<u8>, seq: u64, ts: u64)
    ensures
        ethernet_view(data, seq, ts).timestamp_ns == ts,
{
    let b = blank_view(seq, ts, 0, "unknown"@);
    if data.len() >= 14 {
        let p1 = PacketView {
            dst_mac: mac_text(data.subrange(0, 6)),
            src_mac: mac_text(data.subrange(6, 12)),
            ethertype: be16(data[12], data[13]),
            ..b
        };
        let payload = data.skip(14);
        lemma_layers_keep_time(payload, p1);
        if payload.len() >= 16 {
            let p2 = PacketView { ethertype: be16(payload[12], payload[13]), ..p1 };
            lemma_layers_keep_time(payload.skip(16), p2);
        }
    }
}

#[verifier::spinoff_prover]
proof fn lemma_frame_keeps_time(data: Seq<u8>, seq: u64, ts: u64, kind: LinkKind)
    ensures
        link_frame_view(data, seq, ts, kind).timestamp_ns == ts,
{
    match kind {
        LinkKind::Ethernet => {
            assert(link_frame_view(data, seq, ts, kind) == ethernet_view(data, seq, ts)) by {
                reveal(link_frame_view);
            }
            lemma_ethernet_keeps_time(data, seq, ts);
        },
        LinkKind::Null => {
            let pn = blank_view(seq, ts, data.len() as usize, "IP"@);
            if data.len() > 4 {
                lemma_layers_keep_time(data.skip(4), pn);
            }
            reveal(link_frame_view);
        },
        LinkKind::Raw => {
            let pn = blank_view(seq, ts, data.len() as usize, "IP"@);
            lemma_layers_keep_time(data, pn);
            reveal(link_frame_view);
        },
        LinkKind::LinuxSll => {
            let ps = blank_view(seq, ts, data.len() as usize, "SLL"@);
            if data.len() > 16 {
                let p1 = PacketView { ethertype: be16(data[14], data[15]), ..ps };
                lemma_layers_keep_time(data.skip(16), p1);
            }
            reveal(link_frame_view);
        },
        LinkKind::Other => {
            reveal(link_frame_view);
        },
    }
}

/// The capture time that a record header at byte `o` gives.
spec fn header_time(data: Seq<u8>, le: bool, nano: bool, o: int) -> u64 {
    ts_ns(u32_of(data.subrange(o, o + 4), le), u32_of(data.subrange(o + 4, o + 8), le), nano)
}

/// `t` is the time of some record header at or after `off`.
spec fn time_from(data: Seq<u8>, le: bool, nano: bool, off: int, t: u64) -> bool {
    exists|o: int| off <= o && o + 16 <= data.len() && t == #[trigger] header_time(data, le, nano, o)
}

/// Every packet carries the time of some record header at or after `off`.
spec fn times_from(data: Seq<u8>, le: bool, nano: bool, off: int, ps: Seq<PacketView>) -> bool {
    forall|i: int| 0 <= i < ps.len() ==> time_from(data, le, nano, off, (#[trigger] ps[i]).timestamp_ns)
}

proof fn lemma_records_times(data: Seq<u8>, le: bool, nano: bool, kind: LinkKind, off: nat, seq: nat)
    ensures
        pcap_records(data, le, nano, kind, off, seq) is Ok ==> times_from(
            data,
            le,
            nano,
            off as int,
            pcap_records(data, le, nano, kind, off, seq)->Ok_0,
        ),
    decreases data.len() - off,
{
    let r = pcap_records(data, le, nano, kind, off, seq);
    if off + 16 <= data.len() {
        let o = off as int;
        let caplen = u32_of(data.subrange(o + 8, o + 12), le) as nat;
        if caplen == 0 {
            lemma_records_times(data, le, nano, kind, off + 16, seq + 1);
            let r2 = pcap_records(data, le, nano, kind, off + 16, seq + 1);
            assert(r == r2);
            if r is Ok {
                let ps = r->Ok_0;
                assert forall|i: int| 0 <= i < ps.len() implies time_from(
                    data,
                    le,
                    nano,
                    o,
                    (#[trigger] ps[i]).timestamp_ns,
                ) by {
                    assert(time_from(data, le, nano, o + 16, ps[i].timestamp_ns));
                    let q = choose|q: int|
                        o + 16 <= q && q + 16 <= data.len() && ps[i].timestamp_ns == #[trigger] header_time(
                            data,
                            le,
                            nano,
                            q,
                        );
                    assert(o <= q);
                }
            }
        } else if off + 16 + caplen <= data.len() {
            let next = off + 16 + caplen;
            lemma_records_times(data, le, nano, kind, next, seq + 1);
            let sec = u32_of(data.subrange(o, o + 4), le);
            let frac = u32_of(data.subrange(o + 4, o + 8), le);
            let frame = data.subrange(o + 16, o + 16 + caplen as int);
            lemma_frame_keeps_time(frame, seq as u64, ts_ns(sec, frac, nano), kind);
            let r2 = pcap_records(data, le, nano, kind, next, seq + 1);
            if r is Ok {
                assert(r2 is Ok);
                let ps = r->Ok_0;
                let rest = r2->Ok_0;
                let pkt = link_frame_view(frame, seq as u64, ts_ns(sec, frac, nano), kind);
                assert(ps == seq![pkt] + rest);
                assert forall|i: int| 0 <= i < ps.len() implies time_from(
                    data,
                    le,
                    nano,
                    o,
                    (#[trigger] ps[i]).timestamp_ns,
                ) by {
                    if i == 0 {
                        assert(ps[0] == pkt);
                        assert(ps[0].timestamp_ns == header_time(data, le, nano, o));
                    } else {
                        assert(ps[i] == rest[i - 1]);
                        assert(time_from(data, le, nano, next as int, rest[i - 1].timestamp_ns));
                        let q = choose|q: int|
                            next <= q && q + 16 <= data.len() && rest[i - 1].timestamp_ns
                                == #[trigger] header_time(data, le, nano, q);
                        assert(o <= q);
                    }
                }
            }
        }
    }
}

/// The capture time, in nanoseconds, of the record whose header starts at
/// byte `o` of a classic pcap file: seconds and fraction read in the byte
/// order of the magic number; the fraction counts nanoseconds for the
/// magic `4D 3C B2 A1` (and its big-endian form), microseconds otherwise.
pub open spec fn record_time_ns(data: Seq<u8>, o: int) -> int {
    let little = data[0] == 0xD4 || data[0] == 0x4D;
    let nano = data[0] == 0x4D || data[3] == 0x4D;
    let sec: int = if little {
        data[o] as int + data[o + 1] as int * 256 + data[o + 2] as int * 65536 + data[o + 3] as int
            * 16777216
    } else {
        data[o] as int * 16777216 + data[o + 1] as int * 65536 + data[o + 2] as int * 256 + data[o
            + 3] as int
    };
    let frac: int = if little {
        data[o + 4] as int + data[o + 5] as int * 256 + data[o + 6] as int * 65536 + data[o + 7] as int
            * 16777216
    } else {
        data[o + 4] as int * 16777216 + data[o + 5] as int * 65536 + data[o + 6] as int * 256
            + data[o + 7] as int
    };
    sec * 1_000_000_000 + frac * if nano {
        1int
    } else {
        1000int
    }
}

/// Every packet read from a classic pcap file carries the capture time of a
/// record header of the file: seconds times 10^9 plus the fraction, taken
/// as nanoseconds in nanosecond files (magic `4D 3C B2 A1` or
/// `A1 B2 3C 4D`) and as microseconds in the others; the first packet, when
/// the first record holds data, carries the time of that first record.
pub proof fn lemma_pcap_timestamps(data: Seq<u8>)
    ensures
        pcap_view(data) matches Ok(ps) ==> forall|i: int|
            0 <= i < ps.len() ==> exists|o: int|
                24 <= o && o + 16 <= data.len() && (#[trigger] ps[i]).timestamp_ns
                    == #[trigger] record_time_ns(data, o),
        pcap_view(data) matches Ok(ps) ==> (data.len() >= 40 && (data[32] != 0 || data[33] != 0
            || data[34] != 0 || data[35] != 0) ==> ps.len() >= 1 && ps[0].timestamp_ns
            == record_time_ns(data, 24)),
{
    match pcap_header(data) {
        Ok((le, nano, kind)) => {
            let m = data.subrange(0, 4);
            assert(m[0] == data[0] && m[1] == data[1] && m[2] == data[2] && m[3] == data[3]);
            if m == seq![0xD4u8, 0xC3u8, 0xB2u8, 0xA1u8] {
                assert(le && !nano);
            } else if m == seq![0xA1u8, 0xB2u8, 0xC3u8, 0xD4u8] {
                assert(!le && !nano);
            } else if m == seq![0x4Du8, 0x3Cu8, 0xB2u8, 0xA1u8] {
                assert(le && nano);
            } else {
                assert(m == seq![0xA1u8, 0xB2u8, 0x3Cu8, 0x4Du8]);
                assert(!le && nano);
            }
            assert(le == (data[0] == 0xD4 || data[0] == 0x4D));
            assert(nano == (data[0] == 0x4D || data[3] == 0x4D));
            lemma_records_times(data, le, nano, kind, 24, 0);
            assert(pcap_view(data) == pcap_records(data, le, nano, kind, 24, 0));
            assert forall|o: int| 24 <= o && o + 16 <= data.len() implies #[trigger] header_time(
                data,
                le,
                nano,
                o,
            ) == record_time_ns(data, o) by {
                let s = data.subrange(o, o + 4);
                let f = data.subrange(o + 4, o + 8);
                assert(s[0] == data[o] && s[1] == data[o + 1] && s[2] == data[o + 2] && s[3] == data[o + 3]);
                assert(f[0] == data[o + 4] && f[1] == data[o + 5] && f[2] == data[o + 6] && f[3] == data[o
                    + 7]);
            }
            if data.len() >= 40 {
                let c = data.subrange(32, 36);
                assert(c[0] == data[32] && c[1] == data[33] && c[2] == data[34] && c[3] == data[35]);
                let sec = u32_of(data.subrange(24, 28), le);
                let frac = u32_of(data.subrange(28, 32), le);
                let caplen = u32_of(c, le) as nat;
                if data[32] != 0 || data[33] != 0 || data[34] != 0 || data[35] != 0 {
                    assert(caplen != 0);
                    if 24 + 16 + caplen <= data.len() {
                        lemma_frame_keeps_time(
                            data.subrange(40, 40 + caplen as int),
                            0,
                            ts_ns(sec, frac, nano),
                            kind,
                        );
                    }
                }
            }
        },
        Err(_) => {},
    }
}

/// `acc` in front of the packets of a result.
pub open spec fn prepend(acc: Seq<PacketView>, r: Result<Seq<PacketView>, PcapFault>) -> Result<
    Seq<PacketView>,
    PcapFault,
> {
    match r {
        Ok(x) => Ok(acc + x),
        Err(e) => Err(e),
    }
}

fn link_type_i32(v: u32) -> (r: i32)
    ensures
        r == i32_of(v),
{
    if v <= 0x7fff_ffff {
        v as i32
    } else {
        (v as i64 - 0x1_0000_0000i64) as i32
    }
}

/// Reads the file header: byte order, time precision and link kind.
fn parse_pcap_header(data: &[u8]) -> (r: Result<(bool, bool, LinkKind), PcapError>)
    ensures
        match r {
            Ok(t) => pcap_header(data@) == Ok::<(bool, bool, LinkKind), PcapFault>(t),
            Err(e) => pcap_header(data@) == Err::<(bool, bool, LinkKind), PcapFault>(e@),
        },
{
    if data.len() < 4 {
        return Err(PcapError::Truncated);
    }
    let m0 = data[0];
    let m1 = data[1];
    let m2 = data[2];
    let m3 = data[3];
    let ghost m = data@.subrange(0, 4);
    assert(m =~= seq![m0, m1, m2, m3]);
    let (little_endian, nanosecond) = if m0 == 0xD4 && m1 == 0xC3 && m2 == 0xB2 && m3 == 0xA1 {
        (true, false)
    } else if m0 == 0xA1 && m1 == 0xB2 && m2 == 0xC3 && m3 == 0xD4 {
        (false, false)
    } else if m0 == 0x4D && m1 == 0x3C && m2 == 0xB2 && m3 == 0xA1 {
        (true, true)
    } else if m0 == 0xA1 && m1 == 0xB2 && m2 == 0x3C && m3 == 0x4D {
        (false, true)
    } else if m0 == 0x0A && m1 == 0x0D && m2 == 0x0D && m3 == 0x0A {
        return Err(PcapError::PcapNg);
    } else {
        proof {
            assert(m != seq![0xD4u8, 0xC3u8, 0xB2u8, 0xA1u8]);
            assert(m != seq![0xA1u8, 0xB2u8, 0xC3u8, 0xD4u8]);
            assert(m != seq![0x4Du8, 0x3Cu8, 0xB2u8, 0xA1u8]);
            assert(m != seq![0xA1u8, 0xB2u8, 0x3Cu8, 0x4Du8]);
            assert(m != seq![0x0Au8, 0x0Du8, 0x0Du8, 0x0Au8]);
        }
        return Err(PcapError::BadMagic(hex_encode(slice_subrange(data, 0, 4))));
    };
    if data.len() < 24 {
        return Err(PcapError::Truncated);
    }
    let linktype = link_type_i32(read_u32(slice_subrange(data, 20, 24), little_endian));
    let link_kind = LinkKind::from_linktype(linktype);
    if link_kind == LinkKind::Other {
        return Err(PcapError::UnsupportedLinkType(linktype));
    }
    Ok((little_endian, nanosecond, link_kind))
}

/// Capture time in nanoseconds of a record header.
fn record_time(ts_sec: u32, ts_frac: u32, nanosecond: bool) -> (r: u64)
    ensures
        r == ts_ns(ts_sec, ts_frac, nanosecond),
{
    let frac_ns: u64 = if nanosecond {
        ts_frac as u64
    } else {
        ts_frac as u64 * 1000
    };
    ts_sec as u64 * 1_000_000_000 + frac_ns
}

/// Decodes the packet records that follow the file header.
fn parse_pcap_records(data: &[u8], little_endian: bool, nanosecond: bool, link_kind: LinkKind) -> (r:
    Result<Vec<ParsedPacket>, PcapError>)
    requires
        24 <= data@.len(),
    ensures
        match r {
            Ok(v) => pcap_records(data@, little_endian, nanosecond, link_kind, 24, 0) == Ok::<
                Seq<PacketView>,
                PcapFault,
            >(packet_views(v@)),
            Err(e) => pcap_records(data@, little_endian, nanosecond, link_kind, 24, 0) == Err::<
                Seq<PacketView>,
                PcapFault,
            >(e@),
        },
{
    let ghost le = little_endian;
    let ghost nano = nanosecond;
    let mut packets: Vec<ParsedPacket> = Vec::new();
    let mut seq: u64 = 0;
    let mut off: usize = 24;
    assert(packet_views(packets@) =~= Seq::<PacketView>::empty());
    loop
        invariant
            24 <= off <= data@.len(),
            seq as int * 16 <= off,
            le == little_endian,
            nano == nanosecond,
            pcap_records(data@, le, nano, link_kind, 24, 0) == prepend(
                packet_views(packets@),
                pcap_records(data@, le, nano, link_kind, off as nat, seq as nat),
            ),
        decreases data@.len() - off,
    {
        if data.len() - off < 16 {
            assert(packet_views(packets@) + Seq::<PacketView>::empty() =~= packet_views(packets@));
            return Ok(packets);
        }
        let ts_sec = read_u32(slice_subrange(data, off, off + 4), little_endian);
        let ts_frac = read_u32(slice_subrange(data, off + 4, off + 8), little_endian);
        let caplen = read_u32(slice_subrange(data, off + 8, off + 12), little_endian) as usize;
        if caplen == 0 {
            seq = seq + 1;
            off = off + 16;
            continue;
        }
        if caplen > data.len() - (off + 16) {
            return Err(PcapError::Truncated);
        }
        let ts = record_time(ts_sec, ts_frac, nanosecond);
        let frame = slice_subrange(data, off + 16, off + 16 + caplen);
        let pkt = parse_link_frame(frame, seq, ts, link_kind);
        let ghost acc = packet_views(packets@);
        let ghost pv = pkt@;
        let ghost rest = pcap_records(
            data@,
            le,
            nano,
            link_kind,
            (off + 16 + caplen) as nat,
            (seq + 1) as nat,
        );
        packets.push(pkt);
        proof {
            assert(packet_views(packets@) =~= acc.push(pv));
            match rest {
                Ok(x) => {
                    assert(acc + (seq![pv] + x) =~= acc.push(pv) + x);
                },
                Err(e) => {},
            }
        }
        seq = seq + 1;
        off = off + 16 + caplen;
    }
}

/// Decodes a classic pcap file held in memory.
pub fn parse_pcap_bytes(data: &[u8]) -> (r: Result<Vec<ParsedPacket>, PcapError>)
    ensures
        match r {
            Ok(v) => pcap_view(data@) == Ok::<Seq<PacketView>, PcapFault>(packet_views(v@)),
            Err(e) => pcap_view(data@) == Err::<Seq<PacketView>, PcapFault>(e@),
        },
{
    match parse_pcap_header(data) {
        Err(e) => Err(e),
        Ok((little_endian, nanosecond, link_kind)) => {
            parse_pcap_records(data, little_endian, nanosecond, link_kind)
        },
    }
}

// ---------------------------------------------------------------------------
// One-line summaries
// ---------------------------------------------------------------------------

/// A single readable line from raw bytes: decoded lossily, control
/// characters dropped, at most `max` characters kept, whitespace runs
/// collapsed to single spaces.
pub open spec fn text_preview_view(bytes: Seq<u8>, max: nat) -> Seq<char> {
    line_preview_view(utf8_lossy(bytes), max)
}

/// A single readable line from a text: control characters dropped, at most
/// `max` characters kept, runs of whitespace collapsed to single spaces and
/// trimmed at both ends.
pub open spec fn line_preview_view(text: Seq<char>, max: nat) -> Seq<char> {
    join(words(take_at_most(text.filter(|c: char| !is_ctrl(c)), max)), " "@)
}

/// A single readable line from a text.
pub fn line_preview(text: &str, max: usize) -> (s: String)
    ensures
        s@ == line_preview_view(text@, max as nat),
{
    let all = chars_of(text);
    let kept = drop_controls(&all);
    let first = take_chars(&kept, max);
    let ws = words_chars(&first);
    let sep = chars_of(" ");
    let joined = join_chars(&ws, &sep);
    string_from(&joined)
}

/// A single readable line from raw bytes (decoded lossily as UTF-8).
fn text_preview(bytes: &[u8], max: usize) -> (s: String)
    ensures
        s@ == text_preview_view(bytes@, max as nat),
{
    let text = decode_lossy(bytes);
    line_preview(text.as_str(), max)
}

/// The characters of an optional text, empty when absent.
pub open spec fn or_empty(o: Option<Seq<char>>) -> Seq<char> {
    match o {
        Some(s) => s,
        None => Seq::empty(),
    }
}

/// The preview line of a packet: HTTP method and path (or response status)
/// when HTTP was recognised; otherwise the protocol (with TCP flags), and
/// for a non-empty payload either a text preview of its last `payload_size`
/// bytes of `raw` or the payload size.
pub open spec fn summary_view(p: PacketView, raw: Seq<u8>) -> Seq<char> {
    match p.http {
        Some(h) => if h.method == "RESPONSE"@ {
            "HTTP 响应 "@ + or_empty(h.status)
        } else {
            "HTTP "@ + h.method + " "@ + h.path
        },
        None => {
            let base = if p.protocol == "TCP"@ {
                "TCP ["@ + or_empty(p.tcp_flags) + "]"@
            } else {
                p.protocol
            };
            if p.payload_size > 0 {
                let start = if raw.len() >= p.payload_size {
                    raw.len() - p.payload_size
                } else {
                    0
                };
                let preview = text_preview_view(raw.skip(start), 60);
                if preview.len() == 0 {
                    base + " | 载荷 "@ + dec(p.payload_size as nat) + " B"@
                } else {
                    base + " | "@ + preview
                }
            } else {
                base
            }
        },
    }
}

/// Characters of an optional string, empty when absent.
fn opt_chars_exec(o: &Option<String>) -> (v: Vec<char>)
    ensures
        v@ == or_empty(opt_chars(*o)),
{
    match o {
        Some(s) => chars_of(s.as_str()),
        None => Vec::new(),
    }
}

/// One-line preview of a captured packet.
pub fn packet_summary(p: &ParsedPacket, raw: &[u8]) -> (s: String)
    ensures
        s@ == summary_view(p@, raw@),
{
    if let Some(h) = &p.http {
        if str_eq(h.method.as_str(), "RESPONSE") {
            let mut out = chars_of("HTTP 响应 ");
            let st = opt_chars_exec(&h.status);
            push_all(&mut out, &st);
            return string_from(&out);
        }
        let mut out = chars_of("HTTP ");
        push_str_chars(&mut out, h.method.as_str());
        push_str_chars(&mut out, " ");
        push_str_chars(&mut out, h.path.as_str());
        return string_from(&out);
    }
    let mut base: Vec<char> = if str_eq(p.protocol.as_str(), "TCP") {
        let mut b = chars_of("TCP [");
        let f = opt_chars_exec(&p.tcp_flags);
        push_all(&mut b, &f);
        push_str_chars(&mut b, "]");
        b
    } else {
        chars_of(p.protocol.as_str())
    };
    if p.payload_size > 0 {
        let start = if raw.len() >= p.payload_size {
            raw.len() - p.payload_size
        } else {
            0
        };
        let tail = slice_subrange(raw, start, raw.len());
        assert(tail@ =~= raw@.skip(start as int));
        let preview = text_preview(tail, 60);
        if preview.as_str().is_empty() {
            push_str_chars(&mut base, " | 载荷 ");
            push_dec(&mut base, p.payload_size as u64);
            push_str_chars(&mut base, " B");
        } else {
            push_str_chars(&mut base, " | ");
            push_str_chars(&mut base, preview.as_str());
        }
    }
    string_from(&base)
}

} // verus!
