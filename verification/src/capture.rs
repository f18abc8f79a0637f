//! Command-line capture: its options, the bookkeeping after each captured
//! packet (counts, progress lines and the two stop limits) and the lines
//! it prints and logs.

use vstd::prelude::*;
use vstd::slice::slice_subrange;
use crate::netif::{pad_left, pad_right, push_padded_left, push_padded_right};
use crate::text::{chars_of, dec, hex_encode, hex_lower, push_dec, push_str_chars, string_from};

verus! {

/// The options of a capture.
#[derive(Clone, Debug)]
pub struct CaptureOpts {
    /// The interface to capture on (required with libpcap).
    pub interface: Option<String>,
    /// A BPF filter such as `tcp port 80`.
    pub filter: Option<String>,
    /// The file the capture is written to.
    pub output: String,
    /// Stop after this many bytes; 0 for no limit.
    pub max_bytes: u32,
    /// Print a preview line for every packet.
    pub preview: bool,
    /// Stop after this many packets; 0 for no limit.
    pub count: u64,
    /// Write the captured packets to `output`.
    pub save: bool,
}

/// Why a capture stops after a packet, if it does.
#[derive(Clone, Copy, PartialEq, Eq, Debug, Structural)]
pub enum CaptureStop {
    /// Keep capturing.
    Continue,
    /// The packet limit was reached.
    PacketLimit,
    /// The byte limit was reached.
    ByteLimit,
}

/// Packets and bytes captured so far.
#[derive(Clone, Copy, PartialEq, Eq, Debug, Structural)]
pub struct CaptureProgress {
    pub count: u64,
    pub bytes: u64,
}

/// The packet limit that a requested count gives: none for 0.
pub open spec fn loopback_limit_of(count: u64) -> Option<u64> {
    if count > 0 {
        Some(count)
    } else {
        None
    }
}

/// The packet limit of the loopback capture: the requested count, or none
/// when the count is 0.
pub fn loopback_packet_limit(count: u64) -> (n: Option<u64>)
    ensures
        n == loopback_limit_of(count),
{
    if count > 0 {
        Some(count)
    } else {
        None
    }
}

/// Whether a loopback capture stops once `count` packets and `bytes` bytes
/// were captured: at the packet limit first (if there is one), then at the
/// byte limit (`max_bytes` 0 meaning none).
pub open spec fn loopback_verdict(count: u64, bytes: u64, max_packets: Option<u64>, max_bytes: u64) -> CaptureStop {
    if max_packets matches Some(m) && count >= m {
        CaptureStop::PacketLimit
    } else if max_bytes > 0 && bytes >= max_bytes {
        CaptureStop::ByteLimit
    } else {
        CaptureStop::Continue
    }
}

/// Whether a live capture stops once `count` packets and `bytes` bytes were
/// captured: at the packet limit first, then at the byte limit (each 0
/// meaning none).
pub open spec fn live_verdict(count: u64, bytes: u64, limit: u64, max_bytes: u32) -> CaptureStop {
    if limit > 0 && count >= limit {
        CaptureStop::PacketLimit
    } else if max_bytes > 0 && bytes >= max_bytes {
        CaptureStop::ByteLimit
    } else {
        CaptureStop::Continue
    }
}

/// Counts one packet of `n` bytes in a loopback capture and says whether to
/// stop.
pub fn loopback_step(p: &mut CaptureProgress, n: u64, max_packets: Option<u64>, max_bytes: u64) -> (s: CaptureStop)
    requires
        old(p).count < u64::MAX,
        old(p).bytes + n <= u64::MAX,
    ensures
        final(p).count == old(p).count + 1,
        final(p).bytes == old(p).bytes + n,
        s == loopback_verdict(final(p).count, final(p).bytes, max_packets, max_bytes),
{
    p.count = p.count + 1;
    p.bytes = p.bytes + n;
    let at_limit = match max_packets {
        Some(m) => p.count >= m,
        None => false,
    };
    if at_limit {
        CaptureStop::PacketLimit
    } else if max_bytes > 0 && p.bytes >= max_bytes {
        CaptureStop::ByteLimit
    } else {
        CaptureStop::Continue
    }
}

/// What to do after a packet of a live (libpcap) capture.
#[derive(Clone, Copy, PartialEq, Eq, Debug, Structural)]
pub struct LiveStep {
    /// Print the progress line (every 100th packet when not previewing).
    pub show_progress: bool,
    /// Whether and why to stop.
    pub stop: CaptureStop,
}

/// Counts one packet of `len` bytes in a live capture.  Without previews a
/// progress line is due at every 100th packet.
pub fn live_step(p: &mut CaptureProgress, len: u32, opts: &CaptureOpts) -> (s: LiveStep)
    requires
        old(p).count < u64::MAX,
        old(p).bytes + len <= u64::MAX,
    ensures
        final(p).count == old(p).count + 1,
        final(p).bytes == old(p).bytes + len,
        s.show_progress == (!opts.preview && final(p).count % 100 == 0),
        s.stop == live_verdict(final(p).count, final(p).bytes, opts.count, opts.max_bytes),
{
    p.count = p.count + 1;
    p.bytes = p.bytes + len as u64;
    let show_progress = !opts.preview && p.count % 100 == 0;
    let stop = if opts.count > 0 && p.count >= opts.count {
        CaptureStop::PacketLimit
    } else if opts.max_bytes > 0 && p.bytes >= opts.max_bytes as u64 {
        CaptureStop::ByteLimit
    } else {
        CaptureStop::Continue
    };
    LiveStep { show_progress, stop }
}

/// The preview line of a loopback packet, given the text of its time:
/// `#count time 127.0.0.1:8888 TCP n B  hex`, with the count, time, endpoint
/// and protocol padded on the right (6, 12, 24, 14), the length on the left
/// (6), and the hex of at most the first 48 bytes.
pub open spec fn loopback_preview_view(count: u64, time: Seq<char>, data: Seq<u8>) -> Seq<char> {
    let shown = if data.len() <= 48 {
        data
    } else {
        data.take(48)
    };
    "#"@ + pad_right(dec(count as nat), 6) + " "@ + pad_right(time, 12) + " "@ + pad_right(
        "127.0.0.1:8888"@,
        24,
    ) + " "@ + pad_right("TCP"@, 14) + " "@ + pad_left(dec(data.len() as nat), 6) + " B  "@
        + hex_lower(shown)
}

/// Formats the preview line of a loopback packet.
pub fn loopback_preview_line(count: u64, time: &str, data: &[u8]) -> (s: String)
    ensures
        s@ == loopback_preview_view(count, time@, data@),
{
    let mut out = chars_of("#");
    let mut c: Vec<char> = Vec::new();
    push_dec(&mut c, count);
    push_padded_right(&mut out, &c, 6);
    push_str_chars(&mut out, " ");
    let t = chars_of(time);
    push_padded_right(&mut out, &t, 12);
    push_str_chars(&mut out, " ");
    let ep = chars_of("127.0.0.1:8888");
    push_padded_right(&mut out, &ep, 24);
    push_str_chars(&mut out, " ");
    let proto = chars_of("TCP");
    push_padded_right(&mut out, &proto, 14);
    push_str_chars(&mut out, " ");
    let mut n: Vec<char> = Vec::new();
    push_dec(&mut n, data.len() as u64);
    push_padded_left(&mut out, &n, 6);
    push_str_chars(&mut out, " B  ");
    let end = if data.len() <= 48 {
        data.len()
    } else {
        48
    };
    let shown = slice_subrange(data, 0, end);
    proof {
        if data@.len() <= 48 {
            assert(shown@ =~= data@);
        } else {
            assert(shown@ =~= data@.take(48));
        }
    }
    let h = hex_encode(shown);
    push_str_chars(&mut out, h.as_str());
    assert(c@ =~= dec(count as nat));
    assert(n@ =~= dec(data.len() as nat));
    assert(out@ =~= loopback_preview_view(count, time@, data@));
    string_from(&out)
}

/// The line a loopback capture logs for a packet: time, byte count and the
/// hex of the bytes, then a newline.
pub open spec fn loopback_log_view(time: Seq<char>, data: Seq<u8>) -> Seq<char> {
    time + " "@ + dec(data.len() as nat) + " "@ + hex_lower(data) + "\n"@
}

/// Formats the line a loopback capture logs for a packet.
pub fn loopback_log_line(time: &str, data: &[u8]) -> (s: String)
    ensures
        s@ == loopback_log_view(time@, data@),
{
    let mut out = chars_of(time);
    push_str_chars(&mut out, " ");
    push_dec(&mut out, data.len() as u64);
    push_str_chars(&mut out, " ");
    let h = hex_encode(data);
    push_str_chars(&mut out, h.as_str());
    push_str_chars(&mut out, "\n");
    string_from(&out)
}

/// The progress line of a loopback capture without previews.
pub open spec fn loopback_progress_view(count: u64, n: u64) -> Seq<char> {
    "已捕获 "@ + dec(count as nat) + " 包 ("@ + dec(n as nat) + " 字节)"@
}

/// Formats the progress line of a loopback capture without previews.
pub fn loopback_progress_line(count: u64, n: u64) -> (s: String)
    ensures
        s@ == loopback_progress_view(count, n),
{
    let mut out = chars_of("已捕获 ");
    push_dec(&mut out, count);
    push_str_chars(&mut out, " 包 (");
    push_dec(&mut out, n);
    push_str_chars(&mut out, " 字节)");
    string_from(&out)
}

/// Counting packets one at a time from none, a capture with a packet
/// limit `n` is stopped by that limit first at its `n`-th packet: no
/// earlier packet reports the packet limit, and the `n`-th does whatever
/// the byte count (for the live capture, when `n` is not 0).
pub proof fn lemma_packet_limit_first(n: u64, k: u64, bytes: u64, max_bytes: u64, live_max: u32)
    requires
        1 <= k <= n,
    ensures
        (loopback_verdict(k, bytes, Some(n), max_bytes) == CaptureStop::PacketLimit) == (k == n),
        (live_verdict(k, bytes, n, live_max) == CaptureStop::PacketLimit) == (k == n),
{
}

/// A packet count of 0 means no packet limit: neither capture ever stops
/// for its packet count, and with no byte limit either it never stops on
/// its own.
pub proof fn lemma_zero_count_unlimited(k: u64, bytes: u64, max_bytes: u64, live_max: u32)
    ensures
        loopback_verdict(k, bytes, loopback_limit_of(0), max_bytes) != CaptureStop::PacketLimit,
        live_verdict(k, bytes, 0, live_max) != CaptureStop::PacketLimit,
        loopback_verdict(k, bytes, loopback_limit_of(0), 0) == CaptureStop::Continue,
        live_verdict(k, bytes, 0, 0) == CaptureStop::Continue,
{
}

} // verus!
