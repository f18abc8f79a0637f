//! Local port listing and remote port scanning: the entries and results,
//! the port-list syntax (`80,443,8080-8090`), the parsing of the kernel's
//! socket tables, filtering, ordering and the rows that are displayed.

use vstd::prelude::*;
use std::collections::HashMap;
use crate::parser::or_empty;
use crate::stats::{u32_ip_text, u32_to_ip};
use crate::table::strs;
use crate::text::{
    eq_ignore_ascii_case, eq_ignore_ascii_case_chars, find_chars, find_from, trim_pair, trim_pair_view,
    chars_eq, chars_of, contains_sub, copy_range, dec, decode_lossy, dec_string, lemma_split_concat, lemma_split_nonempty,
    lemma_splitn_nonempty, lines_chars, lines_of, lowercase, owned, parse_uint, parse_uint_chars,
    push_dec, push_str_chars, split_chars, split_on, splitn_chars, splitn_on, str_contains, str_eq,
    string_from, take_at_most, take_chars, to_lower, trim_chars, trim_ws, utf8_lossy, words,
    words_chars,
};

verus! {

// ---------------------------------------------------------------------------
// Entries and results
// ---------------------------------------------------------------------------

/// One socket of the local machine.
#[derive(Clone, Debug)]
pub struct PortEntry {
    pub protocol: String,
    pub local_addr: String,
    pub local_port: u16,
    pub remote_addr: String,
    pub remote_port: u16,
    pub state: String,
    pub pid: Option<u32>,
    pub process: Option<String>,
}

/// The characters of each text field of a [`PortEntry`].
pub struct PortEntryView {
    pub protocol: Seq<char>,
    pub local_addr: Seq<char>,
    pub local_port: u16,
    pub remote_addr: Seq<char>,
    pub remote_port: u16,
    pub state: Seq<char>,
    pub pid: Option<u32>,
    pub process: Option<Seq<char>>,
}

/// The characters of an optional string.
pub open spec fn opt_text(o: Option<String>) -> Option<Seq<char>> {
    match o {
        Some(s) => Some(s@),
        None => None,
    }
}

impl View for PortEntry {
    type V = PortEntryView;

    open spec fn view(&self) -> PortEntryView {
        PortEntryView {
            protocol: self.protocol@,
            local_addr: self.local_addr@,
            local_port: self.local_port,
            remote_addr: self.remote_addr@,
            remote_port: self.remote_port,
            state: self.state@,
            pid: self.pid,
            process: opt_text(self.process),
        }
    }
}

/// The views of a sequence of entries.
pub open spec fn entry_views(s: Seq<PortEntry>) -> Seq<PortEntryView> {
    s.map_values(|e: PortEntry| e@)
}

/// The outcome of probing one remote port.
#[derive(Clone, Debug)]
pub struct ScanResult {
    pub port: u16,
    pub open: bool,
    pub service: Option<String>,
    pub banner: Option<String>,
}

/// The characters of each text field of a [`ScanResult`].
pub struct ScanResultView {
    pub port: u16,
    pub open: bool,
    pub service: Option<Seq<char>>,
    pub banner: Option<Seq<char>>,
}

impl View for ScanResult {
    type V = ScanResultView;

    open spec fn view(&self) -> ScanResultView {
        ScanResultView {
            port: self.port,
            open: self.open,
            service: opt_text(self.service),
            banner: opt_text(self.banner),
        }
    }
}

/// The views of a sequence of results.
pub open spec fn result_views(s: Seq<ScanResult>) -> Seq<ScanResultView> {
    s.map_values(|r: ScanResult| r@)
}

// ---------------------------------------------------------------------------
// Port lists: "80,443,8080-8090"
// ---------------------------------------------------------------------------

/// Why a port list was refused; each carries the offending text.
#[derive(Clone, Debug)]
pub enum PortRangeError {
    /// A piece that is not a port number (0 to 65535).
    InvalidPort(String),
    /// A range whose start is above its end.
    InvalidRange(String, String),
}

/// The characters of a [`PortRangeError`].
pub enum PortRangeErrorView {
    InvalidPort(Seq<char>),
    InvalidRange(Seq<char>, Seq<char>),
}

impl View for PortRangeError {
    type V = PortRangeErrorView;

    open spec fn view(&self) -> PortRangeErrorView {
        match self {
            PortRangeError::InvalidPort(s) => PortRangeErrorView::InvalidPort(s@),
            PortRangeError::InvalidRange(a, b) => PortRangeErrorView::InvalidRange(a@, b@),
        }
    }
}

/// A port number as `str::parse::<u16>` reads it.
pub open spec fn port_of(s: Seq<char>) -> Option<nat> {
    parse_uint(s, 10, 65535)
}

/// The ports `lo..=hi` in increasing order.
pub open spec fn port_span(lo: u16, hi: u16) -> Seq<u16> {
    Seq::new((hi - lo + 1) as nat, |i: int| (lo + i) as u16)
}

/// The ports one comma-separated piece stands for.  The piece is trimmed;
/// an empty piece stands for none.  A piece with a `-` is a range split at
/// its first `-`, each end trimmed and read as a port; otherwise the piece
/// is one port.  The error carries the piece (or range end) as written.
pub open spec fn part_ports(raw: Seq<char>) -> Result<Seq<u16>, PortRangeErrorView> {
    let part = trim_ws(raw);
    if part.len() == 0 {
        Ok(Seq::empty())
    } else {
        let halves = splitn_on(part, 2, '-');
        if halves.len() == 2 {
            let a = halves[0];
            let b = halves[1];
            match (port_of(trim_ws(a)), port_of(trim_ws(b))) {
                (None, _) => Err(PortRangeErrorView::InvalidPort(a)),
                (Some(_), None) => Err(PortRangeErrorView::InvalidPort(b)),
                (Some(lo), Some(hi)) => if lo > hi {
                    Err(PortRangeErrorView::InvalidRange(a, b))
                } else {
                    Ok(port_span(lo as u16, hi as u16))
                },
            }
        } else {
            match port_of(part) {
                None => Err(PortRangeErrorView::InvalidPort(part)),
                Some(p) => Ok(seq![p as u16]),
            }
        }
    }
}

/// The ports of a list of pieces, in order; the first refused piece decides
/// the error.
pub open spec fn parts_ports(parts: Seq<Seq<char>>) -> Result<Seq<u16>, PortRangeErrorView>
    decreases parts.len(),
{
    if parts.len() == 0 {
        Ok(Seq::empty())
    } else {
        match parts_ports(parts.drop_last()) {
            Err(e) => Err(e),
            Ok(acc) => match part_ports(parts.last()) {
                Err(e) => Err(e),
                Ok(ps) => Ok(acc + ps),
            },
        }
    }
}

/// The ports a port list stands for: its comma-separated pieces in order.
pub open spec fn port_list(spec: Seq<char>) -> Result<Seq<u16>, PortRangeErrorView> {
    parts_ports(split_on(spec, ','))
}

/// The view of a parse result.
pub open spec fn ports_result_view(r: Result<Vec<u16>, PortRangeError>) -> Result<
    Seq<u16>,
    PortRangeErrorView,
> {
    match r {
        Ok(v) => Ok(v@),
        Err(e) => Err(e@),
    }
}

/// Reads one port: `None` unless the text is a number from 0 to 65535.
fn read_port(s: &[char]) -> (r: Option<u16>)
    ensures
        r == (match port_of(s@) {
            Some(p) => Some(p as u16),
            None => None,
        }),
{
    match parse_uint_chars(s, 10, 65535) {
        Some(v) => Some(v as u16),
        None => None,
    }
}

/// Appends the ports of one piece to `out`.
fn push_part_ports(raw: &[char], out: &mut Vec<u16>) -> (r: Result<(), PortRangeError>)
    ensures
        match (r, part_ports(raw@)) {
            (Ok(()), Ok(ps)) => final(out)@ == old(out)@ + ps,
            (Err(e), Err(ev)) => e@ == ev,
            _ => false,
        },
{
    let part = trim_chars(raw);
    if part.len() == 0 {
        assert(old(out)@ + Seq::<u16>::empty() =~= old(out)@);
        return Ok(());
    }
    let halves = splitn_chars(&part, 2, '-');
    proof {
        lemma_splitn_nonempty(part@, 2, '-');
    }
    if halves.len() == 2 {
        let a = &halves[0];
        let b = &halves[1];
        let ta = trim_chars(a);
        let tb = trim_chars(b);
        let lo = match read_port(&ta) {
            Some(p) => p,
            None => {
                return Err(PortRangeError::InvalidPort(string_from(a)));
            },
        };
        let hi = match read_port(&tb) {
            Some(p) => p,
            None => {
                return Err(PortRangeError::InvalidPort(string_from(b)));
            },
        };
        if lo > hi {
            return Err(PortRangeError::InvalidRange(string_from(a), string_from(b)));
        }
        let ghost start = out@;
        let mut p: u16 = lo;
        loop
            invariant_except_break
                lo <= p <= hi,
                out@ == start + port_span(lo, hi).take(p - lo),
            ensures
                out@ == start + port_span(lo, hi),
            decreases hi - p,
        {
            out.push(p);
            assert(start + port_span(lo, hi).take(p - lo).push(p) =~= start + port_span(lo, hi).take(
                p - lo + 1,
            ));
            if p == hi {
                assert(port_span(lo, hi).take(hi - lo + 1) =~= port_span(lo, hi));
                break;
            }
            p = p + 1;
        }
        Ok(())
    } else {
        match read_port(&part) {
            Some(p) => {
                out.push(p);
                Ok(())
            },
            None => Err(PortRangeError::InvalidPort(string_from(&part))),
        }
    }
}

/// Parses a port list such as `80,443,8080-8090` into the ports it names,
/// in order (duplicates kept).
pub fn parse_port_range(spec: &str) -> (r: Result<Vec<u16>, PortRangeError>)
    ensures
        ports_result_view(r) == port_list(spec@),
{
    let chars = chars_of(spec);
    let parts = split_chars(&chars, ',');
    let ghost ps = split_on(chars@, ',');
    let mut out: Vec<u16> = Vec::new();
    let mut i: usize = 0;
    assert(ps.take(0) =~= Seq::<Seq<char>>::empty());
    while i < parts.len()
        invariant
            ps == split_on(spec@, ','),
            parts@.len() == ps.len(),
            forall|k: int| 0 <= k < parts@.len() ==> #[trigger] parts@[k]@ == ps[k],
            i <= parts@.len(),
            parts_ports(ps.take(i as int)) == Ok::<Seq<u16>, PortRangeErrorView>(out@),
        decreases parts@.len() - i,
    {
        proof {
            assert(ps.take(i + 1).drop_last() =~= ps.take(i as int));
            assert(ps.take(i + 1).last() == parts@[i as int]@);
        }
        match push_part_ports(&parts[i], &mut out) {
            Ok(()) => {},
            Err(e) => {
                proof {
                    assert(parts_ports(ps.take(i + 1)) == Err::<Seq<u16>, PortRangeErrorView>(e@));
                    lemma_parts_error_stays(ps, i as int + 1);
                }
                return Err(e);
            },
        }
        i = i + 1;
    }
    assert(ps.take(ps.len() as int) =~= ps);
    Ok(out)
}

/// Once a prefix of the pieces is refused, the whole list is refused with
/// the same error.
proof fn lemma_parts_error_stays(parts: Seq<Seq<char>>, k: int)
    requires
        0 <= k <= parts.len(),
        parts_ports(parts.take(k)) is Err,
    ensures
        parts_ports(parts) == parts_ports(parts.take(k)),
    decreases parts.len() - k,
{
    if k < parts.len() {
        assert(parts.take(k + 1).drop_last() =~= parts.take(k));
        lemma_parts_error_stays(parts, k + 1);
    } else {
        assert(parts.take(k) =~= parts);
    }
}

/// The ports of two lists of pieces, one after the other, when neither is
/// refused.
pub proof fn lemma_parts_concat(p: Seq<Seq<char>>, q: Seq<Seq<char>>)
    requires
        parts_ports(p) is Ok,
        parts_ports(q) is Ok,
    ensures
        parts_ports(p + q) == Ok::<Seq<u16>, PortRangeErrorView>(
            parts_ports(p)->Ok_0 + parts_ports(q)->Ok_0,
        ),
    decreases q.len(),
{
    if q.len() == 0 {
        assert(p + q =~= p);
        assert(parts_ports(p)->Ok_0 + parts_ports(q)->Ok_0 =~= parts_ports(p)->Ok_0);
    } else {
        lemma_parts_concat(p, q.drop_last());
        assert((p + q).drop_last() =~= p + q.drop_last());
        assert((p + q).last() == q.last());
        let x = parts_ports(p)->Ok_0;
        let y = parts_ports(q.drop_last())->Ok_0;
        let z = part_ports(q.last())->Ok_0;
        assert(x + y + z =~= x + (y + z));
    }
}

/// A port list joined from two accepted lists with a comma names the ports
/// of the first, then those of the second.
pub proof fn lemma_port_list_concat(a: Seq<char>, b: Seq<char>)
    requires
        port_list(a) is Ok,
        port_list(b) is Ok,
    ensures
        port_list(a + ","@ + b) == Ok::<Seq<u16>, PortRangeErrorView>(
            port_list(a)->Ok_0 + port_list(b)->Ok_0,
        ),
{
    reveal_strlit(",");
    assert(","@ =~= seq![',']);
    lemma_split_concat(a, b, ',');
    lemma_parts_concat(split_on(a, ','), split_on(b, ','));
}

// ---------------------------------------------------------------------------
// Well-known services
// ---------------------------------------------------------------------------

/// The service usually found on a port.
pub open spec fn service_of(port: u16) -> Option<Seq<char>> {
    if port == 20 {
        Some("ftp-data"@)
    } else if port == 21 {
        Some("ftp"@)
    } else if port == 22 {
        Some("ssh"@)
    } else if port == 23 {
        Some("telnet"@)
    } else if port == 25 {
        Some("smtp"@)
    } else if port == 53 {
        Some("dns"@)
    } else if port == 80 {
        Some("http"@)
    } else if port == 110 {
        Some("pop3"@)
    } else if port == 143 {
        Some("imap"@)
    } else if port == 443 {
        Some("https"@)
    } else if port == 465 {
        Some("smtps"@)
    } else if port == 587 {
        Some("submission"@)
    } else if port == 993 {
        Some("imaps"@)
    } else if port == 995 {
        Some("pop3s"@)
    } else if port == 1433 {
        Some("mssql"@)
    } else if port == 1521 {
        Some("oracle"@)
    } else if port == 3306 {
        Some("mysql"@)
    } else if port == 5432 {
        Some("postgresql"@)
    } else if port == 5900 {
        Some("vnc"@)
    } else if port == 6379 {
        Some("redis"@)
    } else if port == 8080 {
        Some("http-proxy"@)
    } else if port == 8443 {
        Some("https-alt"@)
    } else if port == 9090 {
        Some("zookeeper"@)
    } else if port == 27017 {
        Some("mongodb"@)
    } else {
        None
    }
}

/// The name of the service usually found on a port, if it is a known one.
pub fn known_service(port: u16) -> (r: Option<&'static str>)
    ensures
        match r {
            Some(s) => service_of(port) == Some(s@),
            None => service_of(port) is None,
        },
{
    match port {
        20 => Some("ftp-data"),
        21 => Some("ftp"),
        22 => Some("ssh"),
        23 => Some("telnet"),
        25 => Some("smtp"),
        53 => Some("dns"),
        80 => Some("http"),
        110 => Some("pop3"),
        143 => Some("imap"),
        443 => Some("https"),
        465 => Some("smtps"),
        587 => Some("submission"),
        993 => Some("imaps"),
        995 => Some("pop3s"),
        1433 => Some("mssql"),
        1521 => Some("oracle"),
        3306 => Some("mysql"),
        5432 => Some("postgresql"),
        5900 => Some("vnc"),
        6379 => Some("redis"),
        8080 => Some("http-proxy"),
        8443 => Some("https-alt"),
        9090 => Some("zookeeper"),
        27017 => Some("mongodb"),
        _ => None,
    }
}

// ---------------------------------------------------------------------------
// Stable ordering by a 16-bit key
// ---------------------------------------------------------------------------

/// Where an element with key `k` goes in a sequence sorted by `key`: after
/// every element whose key is at most `k`.
pub open spec fn key_insert_pos<A>(s: Seq<A>, key: spec_fn(A) -> u16, k: u16) -> int
    decreases s.len(),
{
    if s.len() == 0 {
        0
    } else if key(s.last()) <= k {
        s.len() as int
    } else {
        key_insert_pos(s.drop_last(), key, k)
    }
}

/// The elements stably sorted by `key` (insertion sort): elements with equal
/// keys keep their order.
pub open spec fn stable_sort_by_key<A>(s: Seq<A>, key: spec_fn(A) -> u16) -> Seq<A>
    decreases s.len(),
{
    if s.len() == 0 {
        Seq::empty()
    } else {
        let r = stable_sort_by_key(s.drop_last(), key);
        let j = key_insert_pos(r, key, key(s.last()));
        r.take(j) + seq![s.last()] + r.skip(j)
    }
}

proof fn lemma_insert_pos_bounds<A>(s: Seq<A>, key: spec_fn(A) -> u16, k: u16)
    ensures
        0 <= key_insert_pos(s, key, k) <= s.len(),
    decreases s.len(),
{
    if s.len() > 0 {
        lemma_insert_pos_bounds(s.drop_last(), key, k);
    }
}

/// The keys never decrease along the sequence.
pub open spec fn sorted_by_key<A>(s: Seq<A>, key: spec_fn(A) -> u16) -> bool {
    forall|i: int, j: int| 0 <= i < j < s.len() ==> key(s[i]) <= key(s[j])
}

proof fn lemma_insert_pos_split<A>(s: Seq<A>, key: spec_fn(A) -> u16, k: u16)
    requires
        sorted_by_key(s, key),
    ensures
        0 <= key_insert_pos(s, key, k) <= s.len(),
        forall|i: int| 0 <= i < key_insert_pos(s, key, k) ==> key(#[trigger] s[i]) <= k,
        forall|i: int| key_insert_pos(s, key, k) <= i < s.len() ==> key(#[trigger] s[i]) > k,
    decreases s.len(),
{
    if s.len() > 0 {
        let n = s.len() - 1;
        if key(s.last()) <= k {
            assert forall|i: int| 0 <= i < s.len() implies key(#[trigger] s[i]) <= k by {
                if i < n {
                    assert(key(s[i]) <= key(s[n]));
                }
            }
        } else {
            let d = s.drop_last();
            assert(sorted_by_key(d, key)) by {
                assert forall|i: int, j: int| 0 <= i < j < d.len() implies key(d[i]) <= key(d[j]) by {
                    assert(d[i] == s[i] && d[j] == s[j]);
                }
            }
            lemma_insert_pos_split(d, key, k);
            assert forall|i: int| key_insert_pos(s, key, k) <= i < s.len() implies key(#[trigger] s[i])
                > k by {
                if i < n {
                    assert(d[i] == s[i]);
                }
            }
            assert forall|i: int| 0 <= i < key_insert_pos(s, key, k) implies key(#[trigger] s[i])
                <= k by {
                assert(d[i] == s[i]);
            }
        }
    }
}

/// Sorting stably by a key gives back the same elements (as a multiset),
/// in an order where the keys never decrease.
pub proof fn lemma_stable_sort_by_key<A>(s: Seq<A>, key: spec_fn(A) -> u16)
    ensures
        stable_sort_by_key(s, key).to_multiset() == s.to_multiset(),
        stable_sort_by_key(s, key).len() == s.len(),
        sorted_by_key(stable_sort_by_key(s, key), key),
    decreases s.len(),
{
    broadcast use vstd::seq_lib::group_to_multiset_ensures;

    if s.len() > 0 {
        let d = s.drop_last();
        let x = s.last();
        let r = stable_sort_by_key(d, key);
        lemma_stable_sort_by_key(d, key);
        let j = key_insert_pos(r, key, key(x));
        lemma_insert_pos_split(r, key, key(x));
        let out = r.take(j) + seq![x] + r.skip(j);
        assert(out =~= r.insert(j, x));
        assert(s =~= d.push(x));
        assert(out.to_multiset() == r.to_multiset().insert(x));
        assert(s.to_multiset() == d.to_multiset().insert(x));
        assert forall|a: int, b: int| 0 <= a < b < out.len() implies key(out[a]) <= key(out[b]) by {
            if b < j {
                assert(out[a] == r[a] && out[b] == r[b]);
            } else if b == j {
                assert(out[a] == r[a] && out[b] == x);
            } else if a < j {
                assert(out[a] == r[a] && out[b] == r[b - 1]);
            } else if a == j {
                assert(out[a] == x && out[b] == r[b - 1]);
            } else {
                assert(out[a] == r[a - 1] && out[b] == r[b - 1]);
            }
        }
    }
}

/// Entries stably sorted by local port.
pub open spec fn sort_entries(s: Seq<PortEntryView>) -> Seq<PortEntryView> {
    stable_sort_by_key(s, |e: PortEntryView| e.local_port)
}

/// Results stably sorted by port.
pub open spec fn sort_results(s: Seq<ScanResultView>) -> Seq<ScanResultView> {
    stable_sort_by_key(s, |r: ScanResultView| r.port)
}

/// Sorts entries by local port, keeping the order of entries with equal
/// ports.
pub fn sort_entries_by_port(v: Vec<PortEntry>) -> (r: Vec<PortEntry>)
    ensures
        entry_views(r@) == sort_entries(entry_views(v@)),
{
    let ghost src = entry_views(v@);
    let ghost key = |e: PortEntryView| e.local_port;
    let mut rest = v;
    let mut r: Vec<PortEntry> = Vec::new();
    let ghost mut m: int = 0;
    assert(src.take(0) =~= Seq::<PortEntryView>::empty());
    assert(entry_views(rest@) =~= src.skip(0));
    while rest.len() > 0
        invariant
            0 <= m <= src.len(),
            src.len() == m + rest@.len(),
            key == (|e: PortEntryView| e.local_port),
            entry_views(rest@) == src.skip(m),
            entry_views(r@) == stable_sort_by_key(src.take(m), key),
        decreases rest@.len(),
    {
        let ghost before = rest@;
        let x = rest.remove(0);
        let k = x.local_port;
        let ghost sv = entry_views(r@);
        proof {
            assert(rest@ =~= before.drop_first());
            assert(entry_views(before)[0] == x@);
            assert forall|i: int| 0 <= i < rest@.len() implies #[trigger] entry_views(rest@)[i]
                == src.skip(m + 1)[i] by {
                assert(entry_views(before)[i + 1] == src.skip(m)[i + 1]);
            }
            assert(entry_views(rest@) =~= src.skip(m + 1));
        }
        let mut j: usize = r.len();
        assert(sv.take(j as int) =~= sv);
        while j > 0 && r[j - 1].local_port > k
            invariant
                j <= r@.len(),
                sv == entry_views(r@),
                key == (|e: PortEntryView| e.local_port),
                key_insert_pos(sv, key, k) == key_insert_pos(sv.take(j as int), key, k),
            decreases j,
        {
            assert(sv.take(j - 1) =~= sv.take(j as int).drop_last());
            j = j - 1;
        }
        proof {
            if j > 0 {
                assert(sv.take(j as int).last() == sv[j - 1]);
            }
            assert(src.take(m + 1).drop_last() =~= src.take(m));
            assert(src.take(m + 1).last() == x@);
        }
        r.insert(j, x);
        proof {
            assert(entry_views(r@) =~= sv.take(j as int) + seq![x@] + sv.skip(j as int));
            m = m + 1;
        }
    }
    assert(src.take(m) =~= src);
    r
}

/// Sorts scan results by port, keeping the order of equal ports.
pub fn sort_scan_results(v: Vec<ScanResult>) -> (r: Vec<ScanResult>)
    ensures
        result_views(r@) == sort_results(result_views(v@)),
{
    let ghost src = result_views(v@);
    let ghost key = |x: ScanResultView| x.port;
    let mut rest = v;
    let mut r: Vec<ScanResult> = Vec::new();
    let ghost mut m: int = 0;
    assert(src.take(0) =~= Seq::<ScanResultView>::empty());
    assert(result_views(rest@) =~= src.skip(0));
    while rest.len() > 0
        invariant
            0 <= m <= src.len(),
            src.len() == m + rest@.len(),
            key == (|x: ScanResultView| x.port),
            result_views(rest@) == src.skip(m),
            result_views(r@) == stable_sort_by_key(src.take(m), key),
        decreases rest@.len(),
    {
        let ghost before = rest@;
        let x = rest.remove(0);
        let k = x.port;
        let ghost sv = result_views(r@);
        proof {
            assert(rest@ =~= before.drop_first());
            assert(result_views(before)[0] == x@);
            assert forall|i: int| 0 <= i < rest@.len() implies #[trigger] result_views(rest@)[i]
                == src.skip(m + 1)[i] by {
                assert(result_views(before)[i + 1] == src.skip(m)[i + 1]);
            }
            assert(result_views(rest@) =~= src.skip(m + 1));
        }
        let mut j: usize = r.len();
        assert(sv.take(j as int) =~= sv);
        while j > 0 && r[j - 1].port > k
            invariant
                j <= r@.len(),
                sv == result_views(r@),
                key == (|x: ScanResultView| x.port),
                key_insert_pos(sv, key, k) == key_insert_pos(sv.take(j as int), key, k),
            decreases j,
        {
            assert(sv.take(j - 1) =~= sv.take(j as int).drop_last());
            j = j - 1;
        }
        proof {
            if j > 0 {
                assert(sv.take(j as int).last() == sv[j - 1]);
            }
            assert(src.take(m + 1).drop_last() =~= src.take(m));
            assert(src.take(m + 1).last() == x@);
        }
        r.insert(j, x);
        proof {
            assert(result_views(r@) =~= sv.take(j as int) + seq![x@] + sv.skip(j as int));
            m = m + 1;
        }
    }
    assert(src.take(m) =~= src);
    r
}

// ---------------------------------------------------------------------------
// The kernel's socket tables (`/proc/net/tcp`, `/proc/net/udp`)
// ---------------------------------------------------------------------------

/// The index of the last `c` in `s`, or -1 when there is none.
pub open spec fn last_index(s: Seq<char>, c: char) -> int
    decreases s.len(),
{
    if s.len() == 0 {
        -1
    } else if s.last() == c {
        s.len() - 1
    } else {
        last_index(s.drop_last(), c)
    }
}

/// The last index of `c` is -1 or a position that holds `c`.
pub(crate) proof fn lemma_last_index_bounds(s: Seq<char>, c: char)
    ensures
        -1 <= last_index(s, c) < s.len(),
        last_index(s, c) >= 0 ==> s[last_index(s, c)] == c,
    decreases s.len(),
{
    if s.len() > 0 && s.last() != c {
        lemma_last_index_bounds(s.drop_last(), c);
    }
}

/// `str::rfind(c)` on a character slice.
pub(crate) fn rfind_char(s: &[char], c: char) -> (r: Option<usize>)
    ensures
        match r {
            Some(i) => i == last_index(s@, c),
            None => last_index(s@, c) == -1,
        },
{
    let mut j: usize = s.len();
    assert(s@.take(j as int) =~= s@);
    while j > 0
        invariant
            j <= s@.len(),
            last_index(s@, c) == last_index(s@.take(j as int), c),
        decreases j,
    {
        assert(s@.take(j as int).drop_last() =~= s@.take(j - 1));
        if s[j - 1] == c {
            return Some(j - 1);
        }
        j = j - 1;
    }
    None
}

/// A 32-bit hexadecimal number as `u32::from_str_radix(_, 16)` reads it,
/// 0 when it is refused.
pub open spec fn hex_u32_or_zero(s: Seq<char>) -> u32 {
    match parse_uint(s, 16, 0xFFFF_FFFF) {
        Some(v) => v as u32,
        None => 0,
    }
}

/// A 16-bit hexadecimal number, 0 when it is refused.
pub open spec fn hex_u16_or_zero(s: Seq<char>) -> u16 {
    match parse_uint(s, 16, 0xFFFF) {
        Some(v) => v as u16,
        None => 0,
    }
}

/// The dotted text of an address written as 8 hexadecimal digits, the most
/// significant byte first (`0.0.0.0` when it cannot be read).
pub fn hex_to_ipv4(hex_str: &str) -> (s: String)
    ensures
        s@ == u32_ip_text(hex_u32_or_zero(hex_str@)),
{
    let chars = chars_of(hex_str);
    let b: u32 = match parse_uint_chars(&chars, 16, 0xFFFF_FFFF) {
        Some(v) => v as u32,
        None => 0,
    };
    u32_to_ip(b)
}

/// The name of a TCP state code of the socket table.
pub open spec fn tcp_state_name(code: Seq<char>) -> Seq<char> {
    if code == "01"@ {
        "ESTABLISHED"@
    } else if code == "0A"@ {
        "LISTEN"@
    } else if code == "06"@ {
        "TIME_WAIT"@
    } else {
        code
    }
}

/// A row of a socket table can be read: when it has at least ten fields,
/// its second field (`address:port`) holds a `:`.
pub open spec fn table_row_ok(line: Seq<char>) -> bool {
    let f = words(line);
    f.len() >= 10 ==> last_index(f[1], ':') >= 0
}

/// The entry a row of a socket table gives: rows with fewer than ten
/// fields give none; otherwise the local address and port are read from the
/// second field (hex address before the last `:`, hex port after it).  TCP
/// rows carry the state named by the fourth field, UDP rows `UNCONN`.
pub open spec fn table_row_entry(line: Seq<char>, tcp: bool) -> Option<PortEntryView> {
    let f = words(line);
    if f.len() < 10 {
        None
    } else {
        let local = f[1];
        let sp = last_index(local, ':');
        Some(
            PortEntryView {
                protocol: if tcp {
                    "TCP"@
                } else {
                    "UDP"@
                },
                local_addr: u32_ip_text(hex_u32_or_zero(local.take(sp))),
                local_port: hex_u16_or_zero(local.skip(sp + 1)),
                remote_addr: "-"@,
                remote_port: 0,
                state: if tcp {
                    tcp_state_name(f[3])
                } else {
                    "UNCONN"@
                },
                pid: None,
                process: None,
            },
        )
    }
}

/// The data rows of a table: its lines after the heading line.
pub open spec fn table_rows(content: Seq<char>) -> Seq<Seq<char>> {
    let ls = lines_of(content);
    if ls.len() == 0 {
        ls
    } else {
        ls.skip(1)
    }
}

/// Every data row of the table can be read.
pub open spec fn table_ok(content: Seq<char>) -> bool {
    forall|i: int| 0 <= i < table_rows(content).len() ==> #[trigger] table_row_ok(table_rows(content)[i])
}

/// The entries of a sequence of rows, in order.
pub open spec fn rows_entries(rows: Seq<Seq<char>>, tcp: bool) -> Seq<PortEntryView>
    decreases rows.len(),
{
    if rows.len() == 0 {
        Seq::empty()
    } else {
        let acc = rows_entries(rows.drop_last(), tcp);
        match table_row_entry(rows.last(), tcp) {
            Some(e) => acc.push(e),
            None => acc,
        }
    }
}

/// The entries of a socket table.
pub open spec fn table_entries(content: Seq<char>, tcp: bool) -> Seq<PortEntryView> {
    rows_entries(table_rows(content), tcp)
}

/// Reads one row of a socket table.
fn table_row(line: &[char], tcp: bool) -> (r: Option<PortEntry>)
    requires
        table_row_ok(line@),
    ensures
        match r {
            Some(e) => table_row_entry(line@, tcp) == Some(e@),
            None => table_row_entry(line@, tcp) is None,
        },
{
    let f = words_chars(line);
    assert(f@.len() == words(line@).len());
    if f.len() < 10 {
        return None;
    }
    let local = &f[1];
    assert(local@ == words(line@)[1]);
    let sp = match rfind_char(local, ':') {
        Some(i) => i,
        None => {
            return None;
        },
    };
    proof {
        lemma_last_index_bounds(local@, ':');
    }
    let llen = local.len();
    let addr_hex = copy_range(local, 0, sp);
    let port_hex = copy_range(local, sp + 1, llen);
    assert(addr_hex@ =~= local@.take(sp as int));
    assert(port_hex@ =~= local@.skip(sp + 1));
    let addr_text = string_from(&addr_hex);
    let local_addr = hex_to_ipv4(addr_text.as_str());
    let local_port: u16 = match parse_uint_chars(&port_hex, 16, 0xFFFF) {
        Some(v) => v as u16,
        None => 0,
    };
    let state = if tcp {
        let code = &f[3];
        assert(code@ == words(line@)[3]);
        let c01 = chars_of("01");
        let c0a = chars_of("0A");
        let c06 = chars_of("06");
        if chars_eq(code, &c01) {
            owned("ESTABLISHED")
        } else if chars_eq(code, &c0a) {
            owned("LISTEN")
        } else if chars_eq(code, &c06) {
            owned("TIME_WAIT")
        } else {
            string_from(code)
        }
    } else {
        owned("UNCONN")
    };
    let protocol = if tcp {
        owned("TCP")
    } else {
        owned("UDP")
    };
    Some(
        PortEntry {
            protocol,
            local_addr,
            local_port,
            remote_addr: owned("-"),
            remote_port: 0,
            state,
            pid: None,
            process: None,
        },
    )
}

/// Whether every data row of a socket table can be read.
pub fn socket_table_ok(content: &str) -> (r: bool)
    ensures
        r == table_ok(content@),
{
    let chars = chars_of(content);
    let ls = lines_chars(&chars);
    let ghost rows = table_rows(content@);
    let mut i: usize = 1;
    while i < ls.len()
        invariant
            ls@.len() == lines_of(content@).len(),
            forall|k: int| 0 <= k < ls@.len() ==> #[trigger] ls@[k]@ == lines_of(content@)[k],
            rows == table_rows(content@),
            1 <= i,
            ls@.len() > 0 ==> i <= ls@.len(),
            forall|k: int| 0 <= k < i - 1 ==> #[trigger] table_row_ok(rows[k]),
        decreases ls@.len() - i,
    {
        let f = words_chars(&ls[i]);
        assert(rows[i - 1] == ls@[i as int]@);
        if f.len() >= 10 {
            assert(f@[1]@ == words(rows[i - 1])[1]);
            if rfind_char(&f[1], ':').is_none() {
                assert(!table_row_ok(rows[i - 1]));
                return false;
            }
        }
        i = i + 1;
    }
    true
}

/// Reads the entries of a socket table, in row order.
pub fn parse_socket_table(content: &str, tcp: bool) -> (r: Vec<PortEntry>)
    requires
        table_ok(content@),
    ensures
        entry_views(r@) == table_entries(content@, tcp),
{
    let chars = chars_of(content);
    let ls = lines_chars(&chars);
    let ghost rows = table_rows(content@);
    let mut out: Vec<PortEntry> = Vec::new();
    if ls.len() == 0 {
        return out;
    }
    let mut i: usize = 1;
    assert(rows.take(0) =~= Seq::<Seq<char>>::empty());
    while i < ls.len()
        invariant
            ls@.len() == lines_of(content@).len(),
            ls@.len() > 0,
            forall|k: int| 0 <= k < ls@.len() ==> #[trigger] ls@[k]@ == lines_of(content@)[k],
            rows == table_rows(content@),
            table_ok(content@),
            1 <= i <= ls@.len(),
            entry_views(out@) == rows_entries(rows.take(i - 1), tcp),
        decreases ls@.len() - i,
    {
        assert(rows[i - 1] == ls@[i as int]@);
        assert(table_row_ok(rows[i - 1]));
        proof {
            assert(rows.take(i as int).drop_last() =~= rows.take(i - 1));
            assert(rows.take(i as int).last() == rows[i - 1]);
        }
        match table_row(&ls[i], tcp) {
            Some(e) => {
                let ghost before = entry_views(out@);
                out.push(e);
                assert(entry_views(out@) =~= before.push(e@));
            },
            None => {},
        }
        i = i + 1;
    }
    assert(rows.take(rows.len() as int) =~= rows);
    out
}

/// The entries of an optional table.
pub open spec fn opt_table_entries(content: Option<String>, tcp: bool) -> Seq<PortEntryView> {
    match content {
        Some(c) => table_entries(c@, tcp),
        None => Seq::empty(),
    }
}

/// An optional table can be read (a missing one trivially).
pub open spec fn opt_table_ok(content: Option<String>) -> bool {
    match content {
        Some(c) => table_ok(c@),
        None => true,
    }
}

/// The local sockets from the TCP and UDP tables (each may be missing):
/// the TCP entries, then the UDP entries, stably sorted by local port.
pub fn local_port_entries(tcp_table: Option<String>, udp_table: Option<String>) -> (r: Vec<PortEntry>)
    requires
        opt_table_ok(tcp_table),
        opt_table_ok(udp_table),
    ensures
        entry_views(r@) == sort_entries(
            opt_table_entries(tcp_table, true) + opt_table_entries(udp_table, false),
        ),
{
    let mut all: Vec<PortEntry> = match &tcp_table {
        Some(c) => parse_socket_table(c.as_str(), true),
        None => Vec::new(),
    };
    let mut udp: Vec<PortEntry> = match &udp_table {
        Some(c) => parse_socket_table(c.as_str(), false),
        None => Vec::new(),
    };
    let ghost a = entry_views(all@);
    let ghost b = entry_views(udp@);
    all.append(&mut udp);
    assert(entry_views(all@) =~= a + b);
    sort_entries_by_port(all)
}

// ---------------------------------------------------------------------------
// Filtering and displaying local entries
// ---------------------------------------------------------------------------

/// An entry passes the filters: only `LISTEN` entries when `listening`; a
/// process name containing `process` (both lower-cased; an entry without a
/// process name has the empty name); exactly the given PID.
pub open spec fn entry_selected(
    e: PortEntryView,
    listening: bool,
    process: Option<Seq<char>>,
    pid: Option<u32>,
) -> bool {
    &&& listening ==> e.state == "LISTEN"@
    &&& process matches Some(pf) ==> contains_sub(lowercase(or_empty(e.process)), lowercase(pf))
    &&& pid matches Some(p) ==> e.pid == Some(p)
}

/// The positions of the entries that pass the filters, in order.
pub open spec fn selected_indices(
    es: Seq<PortEntryView>,
    listening: bool,
    process: Option<Seq<char>>,
    pid: Option<u32>,
) -> Seq<usize>
    decreases es.len(),
{
    if es.len() == 0 {
        Seq::empty()
    } else {
        let acc = selected_indices(es.drop_last(), listening, process, pid);
        if entry_selected(es.last(), listening, process, pid) {
            acc.push((es.len() - 1) as usize)
        } else {
            acc
        }
    }
}

/// The positions of the entries that pass the filters, in order.
pub fn filter_entries(
    entries: &[PortEntry],
    listening: bool,
    process: &Option<String>,
    pid: Option<u32>,
) -> (r: Vec<usize>)
    ensures
        r@ == selected_indices(entry_views(entries@), listening, opt_text(*process), pid),
{
    let ghost es = entry_views(entries@);
    let needle: Option<String> = match process {
        Some(pf) => Some(to_lower(pf.as_str())),
        None => None,
    };
    let mut r: Vec<usize> = Vec::new();
    let mut i: usize = 0;
    assert(es.take(0) =~= Seq::<PortEntryView>::empty());
    while i < entries.len()
        invariant
            es == entry_views(entries@),
            i <= entries@.len(),
            match (needle, *process) {
                (Some(n), Some(pf)) => n@ == lowercase(pf@),
                (None, None) => true,
                _ => false,
            },
            r@ == selected_indices(es.take(i as int), listening, opt_text(*process), pid),
        decreases entries@.len() - i,
    {
        let e = &entries[i];
        let mut keep = true;
        if listening && !str_eq(e.state.as_str(), "LISTEN") {
            keep = false;
        }
        if keep {
            if let Some(n) = &needle {
                let name: &str = match &e.process {
                    Some(p) => p.as_str(),
                    None => "",
                };
                proof {
                    if e.process is None {
                        reveal_strlit("");
                        assert(name@ =~= Seq::<char>::empty());
                    }
                }
                let lname = to_lower(name);
                if !str_contains(lname.as_str(), n.as_str()) {
                    keep = false;
                }
            }
        }
        if keep {
            if let Some(p) = pid {
                if e.pid != Some(p) {
                    keep = false;
                }
            }
        }
        proof {
            assert(es.take(i + 1).drop_last() =~= es.take(i as int));
            assert(es.take(i + 1).last() == e@);
            assert(keep == entry_selected(e@, listening, opt_text(*process), pid));
        }
        if keep {
            r.push(i);
        }
        i = i + 1;
    }
    assert(es.take(es.len() as int) =~= es);
    r
}

/// The process column: `name (pid)`, `name`, `pid <pid>` or `-`.
pub open spec fn process_text(process: Option<Seq<char>>, pid: Option<u32>) -> Seq<char> {
    match (process, pid) {
        (Some(name), Some(p)) => name + " ("@ + dec(p as nat) + ")"@,
        (Some(name), None) => name,
        (None, Some(p)) => "pid "@ + dec(p as nat),
        (None, None) => "-"@,
    }
}

/// The displayed row of a local entry: protocol, `address:port`, state,
/// process.
pub open spec fn local_row_view(e: PortEntryView) -> Seq<Seq<char>> {
    seq![
        e.protocol,
        e.local_addr + ":"@ + dec(e.local_port as nat),
        e.state,
        process_text(e.process, e.pid),
    ]
}

/// Builds the displayed row of a local entry.
pub fn local_row(e: &PortEntry) -> (r: Vec<String>)
    ensures
        strs(r@) == local_row_view(e@),
{
    let mut addr = chars_of(e.local_addr.as_str());
    push_str_chars(&mut addr, ":");
    push_dec(&mut addr, e.local_port as u64);
    let mut proc_col: Vec<char> = Vec::new();
    match (&e.process, e.pid) {
        (Some(name), Some(p)) => {
            push_str_chars(&mut proc_col, name.as_str());
            push_str_chars(&mut proc_col, " (");
            push_dec(&mut proc_col, p as u64);
            push_str_chars(&mut proc_col, ")");
        },
        (Some(name), None) => {
            push_str_chars(&mut proc_col, name.as_str());
        },
        (None, Some(p)) => {
            push_str_chars(&mut proc_col, "pid ");
            push_dec(&mut proc_col, p as u64);
        },
        (None, None) => {
            push_str_chars(&mut proc_col, "-");
        },
    }
    assert(Seq::<char>::empty() + e.process->Some_0@ =~= e.process->Some_0@) by {
        if e.process is Some {
        }
    };
    let mut r: Vec<String> = Vec::new();
    r.push(e.protocol.clone());
    r.push(string_from(&addr));
    r.push(e.state.clone());
    r.push(string_from(&proc_col));
    assert(strs(r@) =~= local_row_view(e@));
    r
}

// ---------------------------------------------------------------------------
// Remote results
// ---------------------------------------------------------------------------

/// The banner shown for a reply text: the text cut to 80 characters; none
/// when it is empty.
pub open spec fn banner_text_view(text: Seq<char>) -> Option<Seq<char>> {
    if text.len() == 0 {
        None
    } else {
        Some(take_at_most(text, 80))
    }
}

/// The banner of an open port: the reply decoded lossily as UTF-8, then
/// [`banner_text_view`].
pub open spec fn banner_view(raw: Seq<u8>) -> Option<Seq<char>> {
    banner_text_view(utf8_lossy(raw))
}

/// The banner shown for a reply text.
pub fn banner_text(text: &str) -> (r: Option<String>)
    ensures
        opt_text(r) == banner_text_view(text@),
{
    let chars = chars_of(text);
    if chars.len() == 0 {
        None
    } else {
        let cut = take_chars(&chars, 80);
        Some(string_from(&cut))
    }
}

/// The banner of an open port from the bytes it replied with.
pub fn banner_from(raw: &[u8]) -> (r: Option<String>)
    ensures
        opt_text(r) == banner_view(raw@),
{
    let text = decode_lossy(raw);
    banner_text(text.as_str())
}

/// The result for a probed port, with the service usually found on it.
pub fn scan_result(port: u16, open: bool, banner: Option<String>) -> (r: ScanResult)
    ensures
        r@ == (ScanResultView { port, open, service: service_of(port), banner: opt_text(banner) }),
{
    let service = match known_service(port) {
        Some(s) => Some(owned(s)),
        None => None,
    };
    ScanResult { port, open, service, banner }
}

/// The text of an optional field, `-` when it is missing.
pub open spec fn or_dash(o: Option<Seq<char>>) -> Seq<char> {
    match o {
        Some(s) => s,
        None => "-"@,
    }
}

/// The displayed row of an open port: port, service, banner.
pub open spec fn scan_row_view(r: ScanResultView) -> Seq<Seq<char>> {
    seq![dec(r.port as nat), or_dash(r.service), or_dash(r.banner)]
}

/// The rows of the open ports, in order.
pub open spec fn open_rows(s: Seq<ScanResultView>) -> Seq<Seq<Seq<char>>>
    decreases s.len(),
{
    if s.len() == 0 {
        Seq::empty()
    } else if s.last().open {
        open_rows(s.drop_last()).push(scan_row_view(s.last()))
    } else {
        open_rows(s.drop_last())
    }
}

fn or_dash_string(o: &Option<String>) -> (s: String)
    ensures
        s@ == or_dash(opt_text(*o)),
{
    match o {
        Some(v) => v.clone(),
        None => owned("-"),
    }
}

/// The displayed rows of the open ports; the number of rows is the number
/// of open ports.
pub fn scan_rows(results: &[ScanResult]) -> (rows: Vec<Vec<String>>)
    ensures
        rows@.len() == open_rows(result_views(results@)).len(),
        forall|i: int| 0 <= i < rows@.len() ==> #[trigger] strs(rows@[i]@) == open_rows(
            result_views(results@),
        )[i],
{
    let ghost rs = result_views(results@);
    let mut rows: Vec<Vec<String>> = Vec::new();
    let mut i: usize = 0;
    assert(rs.take(0) =~= Seq::<ScanResultView>::empty());
    while i < results.len()
        invariant
            rs == result_views(results@),
            i <= results@.len(),
            rows@.len() == open_rows(rs.take(i as int)).len(),
            forall|k: int| 0 <= k < rows@.len() ==> #[trigger] strs(rows@[k]@) == open_rows(
                rs.take(i as int),
            )[k],
        decreases results@.len() - i,
    {
        let r = &results[i];
        proof {
            assert(rs.take(i + 1).drop_last() =~= rs.take(i as int));
            assert(rs.take(i + 1).last() == r@);
        }
        if r.open {
            let mut row: Vec<String> = Vec::new();
            row.push(dec_string(r.port as u64));
            row.push(or_dash_string(&r.service));
            row.push(or_dash_string(&r.banner));
            assert(strs(row@) =~= scan_row_view(r@));
            rows.push(row);
        }
        i = i + 1;
    }
    assert(rs.take(rs.len() as int) =~= rs);
    rows
}

// ---------------------------------------------------------------------------
// Windows: the PowerShell socket list and the tasklist CSV
// ---------------------------------------------------------------------------

/// Wildcard addresses (`0.0.0.0`, `::`, `*`) shown as `*`.
pub open spec fn star_wildcard(a: Seq<char>) -> Seq<char> {
    if a == "0.0.0.0"@ || a == "::"@ || a == "*"@ {
        "*"@
    } else {
        a
    }
}

/// Shows a wildcard address as `*`.
pub fn wildcard_to_star(addr: &str) -> (r: String)
    ensures
        r@ == star_wildcard(addr@),
{
    if str_eq(addr, "0.0.0.0") || str_eq(addr, "::") || str_eq(addr, "*") {
        owned("*")
    } else {
        owned(addr)
    }
}

/// A decimal port, 0 when it cannot be read.
pub open spec fn port_or_zero(s: Seq<char>) -> u16 {
    match port_of(s) {
        Some(p) => p as u16,
        None => 0,
    }
}

/// A decimal process id, if it can be read.
pub open spec fn pid_of(s: Seq<char>) -> Option<u32> {
    match parse_uint(s, 10, 0xFFFF_FFFF) {
        Some(v) => Some(v as u32),
        None => None,
    }
}

/// The entry of one line of the PowerShell socket list
/// (`protocol|local address|local port|state|remote address|remote port|pid`,
/// each field trimmed).  Blank lines and lines with fewer than seven fields
/// give none.  A listening socket shows `-` and 0 as its remote end.
pub open spec fn windows_row_entry(raw: Seq<char>) -> Option<PortEntryView> {
    let line = trim_ws(raw);
    if line.len() == 0 {
        None
    } else {
        let parts = split_on(line, '|');
        if parts.len() < 7 {
            None
        } else {
            let state = trim_ws(parts[3]);
            let listen = eq_ignore_ascii_case(state, "listen"@);
            Some(
                PortEntryView {
                    protocol: trim_ws(parts[0]),
                    local_addr: star_wildcard(trim_ws(parts[1])),
                    local_port: port_or_zero(trim_ws(parts[2])),
                    remote_addr: if listen {
                        "-"@
                    } else {
                        star_wildcard(trim_ws(parts[4]))
                    },
                    remote_port: if listen {
                        0
                    } else {
                        port_or_zero(trim_ws(parts[5]))
                    },
                    state,
                    pid: pid_of(trim_ws(parts[6])),
                    process: None,
                },
            )
        }
    }
}

/// The entries of the lines of the PowerShell socket list, in order.
pub open spec fn windows_entries(lines: Seq<Seq<char>>) -> Seq<PortEntryView>
    decreases lines.len(),
{
    if lines.len() == 0 {
        Seq::empty()
    } else {
        let acc = windows_entries(lines.drop_last());
        match windows_row_entry(lines.last()) {
            Some(e) => acc.push(e),
            None => acc,
        }
    }
}

fn read_port_or_zero(s: &[char]) -> (p: u16)
    ensures
        p == port_or_zero(s@),
{
    match read_port(s) {
        Some(p) => p,
        None => 0,
    }
}

fn trimmed_string(s: &[char]) -> (r: String)
    ensures
        r@ == trim_ws(s@),
{
    let t = trim_chars(s);
    string_from(&t)
}

fn windows_row(raw: &[char]) -> (r: Option<PortEntry>)
    ensures
        match r {
            Some(e) => windows_row_entry(raw@) == Some(e@),
            None => windows_row_entry(raw@) is None,
        },
{
    let line = trim_chars(raw);
    if line.len() == 0 {
        return None;
    }
    let parts = split_chars(&line, '|');
    if parts.len() < 7 {
        return None;
    }
    let state_chars = trim_chars(&parts[3]);
    let listen_word = chars_of("listen");
    let listen = eq_ignore_ascii_case_chars(&state_chars, &listen_word);
    let protocol = trimmed_string(&parts[0]);
    let local_text = trimmed_string(&parts[1]);
    let local_addr = wildcard_to_star(local_text.as_str());
    let lp = trim_chars(&parts[2]);
    let local_port = read_port_or_zero(&lp);
    let (remote_addr, remote_port) = if listen {
        (owned("-"), 0u16)
    } else {
        let rt = trimmed_string(&parts[4]);
        let rp = trim_chars(&parts[5]);
        (wildcard_to_star(rt.as_str()), read_port_or_zero(&rp))
    };
    let pt = trim_chars(&parts[6]);
    let pid: Option<u32> = match parse_uint_chars(&pt, 10, 0xFFFF_FFFF) {
        Some(v) => Some(v as u32),
        None => None,
    };
    let state = string_from(&state_chars);
    Some(
        PortEntry {
            protocol,
            local_addr,
            local_port,
            remote_addr,
            remote_port,
            state,
            pid,
            process: None,
        },
    )
}

/// Reads the PowerShell socket list: one entry per readable line.
pub fn parse_windows_ports(stdout: &str) -> (r: Vec<PortEntry>)
    ensures
        entry_views(r@) == windows_entries(lines_of(stdout@)),
{
    let chars = chars_of(stdout);
    let ls = lines_chars(&chars);
    let ghost lv = lines_of(stdout@);
    let mut out: Vec<PortEntry> = Vec::new();
    let mut i: usize = 0;
    assert(lv.take(0) =~= Seq::<Seq<char>>::empty());
    while i < ls.len()
        invariant
            lv == lines_of(stdout@),
            ls@.len() == lv.len(),
            forall|k: int| 0 <= k < ls@.len() ==> #[trigger] ls@[k]@ == lv[k],
            i <= ls@.len(),
            entry_views(out@) == windows_entries(lv.take(i as int)),
        decreases ls@.len() - i,
    {
        proof {
            assert(lv.take(i + 1).drop_last() =~= lv.take(i as int));
            assert(lv.take(i + 1).last() == ls@[i as int]@);
        }
        match windows_row(&ls[i]) {
            Some(e) => {
                let ghost before = entry_views(out@);
                out.push(e);
                assert(entry_views(out@) =~= before.push(e@));
            },
            None => {},
        }
        i = i + 1;
    }
    assert(lv.take(lv.len() as int) =~= lv);
    out
}

/// The field separator of the tasklist CSV: `","`.
pub open spec fn csv_sep() -> Seq<char> {
    seq!['"', ',', '"']
}

/// The (pid, image name) of a tasklist CSV line
/// (`"chrome.exe","1234","Console","1","100,000 K"`): the name is the first
/// field without surrounding quotes and spaces, the pid the second field
/// without quotes, trimmed; none when the pid cannot be read or the name is
/// empty.
pub open spec fn tasklist_entry(line: Seq<char>) -> Option<(u32, Seq<char>)> {
    let i = find_from(line, csv_sep(), 0);
    let first = if i < 0 {
        line
    } else {
        line.take(i)
    };
    let name = trim_pair_view(first, '"', ' ');
    if i < 0 {
        None
    } else {
        let rest = line.skip(i + 3);
        let j = find_from(rest, csv_sep(), 0);
        let second = if j < 0 {
            rest
        } else {
            rest.take(j)
        };
        match pid_of(trim_ws(trim_pair_view(second, '"', '"'))) {
            Some(pid) => if name.len() == 0 {
                None
            } else {
                Some((pid, name))
            },
            None => None,
        }
    }
}

/// The image name of each pid in the tasklist lines; where a pid occurs
/// on several lines the last one wins.
pub open spec fn tasklist_names(lines: Seq<Seq<char>>) -> Map<u32, Seq<char>>
    decreases lines.len(),
{
    if lines.len() == 0 {
        Map::empty()
    } else {
        let acc = tasklist_names(lines.drop_last());
        match tasklist_entry(lines.last()) {
            Some(e) => acc.insert(e.0, e.1),
            None => acc,
        }
    }
}

/// The view of a pid-to-name map: each name by its characters.
pub open spec fn names_view(m: Map<u32, String>) -> Map<u32, Seq<char>> {
    m.map_values(|v: String| v@)
}

fn tasklist_line(line: &[char]) -> (r: Option<(u32, String)>)
    ensures
        match r {
            Some(p) => tasklist_entry(line@) == Some((p.0, p.1@)),
            None => tasklist_entry(line@) is None,
        },
{
    let sep: Vec<char> = vec!['"', ',', '"'];
    assert(sep@ =~= csv_sep());
    let i = match find_chars(line, &sep, 0) {
        Some(i) => i,
        None => {
            return None;
        },
    };
    let first = copy_range(line, 0, i);
    assert(first@ =~= line@.take(i as int));
    let name = trim_pair(&first, '"', ' ');
    let n = line.len();
    assert(sep@.len() == 3);
    let rest = copy_range(line, i + 3, n);
    assert(rest@ =~= line@.skip(i + 3));
    let second = match find_chars(&rest, &sep, 0) {
        Some(j) => {
            let s = copy_range(&rest, 0, j);
            assert(s@ =~= rest@.take(j as int));
            s
        },
        None => rest,
    };
    let unquoted = trim_pair(&second, '"', '"');
    let pt = trim_chars(&unquoted);
    let pid = match parse_uint_chars(&pt, 10, 0xFFFF_FFFF) {
        Some(v) => v as u32,
        None => {
            return None;
        },
    };
    if name.len() == 0 {
        return None;
    }
    Some((pid, string_from(&name)))
}

/// Reads the tasklist CSV into a map from pid to image name (a later line
/// for the same pid replaces an earlier one).
pub fn parse_tasklist_csv(text: &str) -> (r: HashMap<u32, String>)
    ensures
        names_view(r@) == tasklist_names(lines_of(text@)),
{
    broadcast use vstd::std_specs::hash::group_hash_axioms;
    let chars = chars_of(text);
    let ls = lines_chars(&chars);
    let ghost lv = lines_of(text@);
    let mut out: HashMap<u32, String> = HashMap::new();
    let mut i: usize = 0;
    assert(names_view(out@) =~= Map::<u32, Seq<char>>::empty());
    assert(lv.take(0) =~= Seq::<Seq<char>>::empty());
    while i < ls.len()
        invariant
            lv == lines_of(text@),
            ls@.len() == lv.len(),
            forall|k: int| 0 <= k < ls@.len() ==> #[trigger] ls@[k]@ == lv[k],
            i <= ls@.len(),
            names_view(out@) == tasklist_names(lv.take(i as int)),
        decreases ls@.len() - i,
    {
        proof {
            assert(lv.take(i + 1).drop_last() =~= lv.take(i as int));
            assert(lv.take(i + 1).last() == ls@[i as int]@);
        }
        match tasklist_line(&ls[i]) {
            Some(p) => {
                let ghost before = names_view(out@);
                let ghost pv = (p.0, p.1@);
                out.insert(p.0, p.1);
                assert(names_view(out@) =~= before.insert(pv.0, pv.1));
            },
            None => {},
        }
        i = i + 1;
    }
    assert(lv.take(lv.len() as int) =~= lv);
    out
}

fn lookup_name(names: &HashMap<u32, String>, pid: u32) -> (r: Option<String>)
    ensures
        opt_text(r) == (if names_view(names@).contains_key(pid) {
            Some(names_view(names@)[pid])
        } else {
            None
        }),
{
    broadcast use vstd::std_specs::hash::group_hash_axioms;
    match names.get(&pid) {
        Some(s) => Some(s.clone()),
        None => None,
    }
}

/// An entry with its process name filled in from the pairs: entries with a
/// pid get the name recorded for it (none when there is none); entries
/// without a pid are unchanged.
pub open spec fn with_process(e: PortEntryView, names: Map<u32, Seq<char>>) -> PortEntryView {
    match e.pid {
        Some(p) => PortEntryView {
            protocol: e.protocol,
            local_addr: e.local_addr,
            local_port: e.local_port,
            remote_addr: e.remote_addr,
            remote_port: e.remote_port,
            state: e.state,
            pid: e.pid,
            process: if names.contains_key(p) {
                Some(names[p])
            } else {
                None
            },
        },
        None => e,
    }
}

/// Fills in the process names of the entries from a pid-to-name map.
pub fn fill_process_names(entries: &mut Vec<PortEntry>, names: &HashMap<u32, String>)
    ensures
        final(entries)@.len() == old(entries)@.len(),
        forall|i: int| 0 <= i < final(entries)@.len() ==> #[trigger] final(entries)@[i]@ == with_process(
            old(entries)@[i]@,
            names_view(names@),
        ),
{
    let mut rest: Vec<PortEntry> = Vec::new();
    std::mem::swap(entries, &mut rest);
    let ghost src = rest@;
    let ghost pv = names_view(names@);
    let ghost mut m: int = 0;
    assert(rest@ =~= src.skip(0));
    while rest.len() > 0
        invariant
            src == old(entries)@,
            pv == names_view(names@),
            0 <= m <= src.len(),
            src.len() == m + rest@.len(),
            rest@ == src.skip(m),
            entries@.len() == m,
            forall|i: int| 0 <= i < m ==> #[trigger] entries@[i]@ == with_process(src[i]@, pv),
        decreases rest@.len(),
    {
        let ghost before = rest@;
        let mut e = rest.remove(0);
        proof {
            assert(rest@ =~= src.skip(m + 1));
            assert(e == src[m]);
        }
        if let Some(p) = e.pid {
            e.process = lookup_name(names, p);
        }
        assert(e@ == with_process(src[m]@, pv));
        entries.push(e);
        proof {
            m = m + 1;
        }
    }
}

/// The local sockets on Windows: the PowerShell socket list read, the
/// process names filled in from the tasklist CSV when it could be had, the
/// entries stably sorted by local port.
pub fn windows_local_entries(ports_out: &str, tasklist_out: Option<String>) -> (r: Vec<PortEntry>)
    ensures
        entry_views(r@) == sort_entries(
            match tasklist_out {
                Some(t) => windows_entries(lines_of(ports_out@)).map_values(
                    |e: PortEntryView| with_process(e, tasklist_names(lines_of(t@))),
                ),
                None => windows_entries(lines_of(ports_out@)),
            },
        ),
{
    let mut entries = parse_windows_ports(ports_out);
    let ghost parsed = entry_views(entries@);
    match &tasklist_out {
        Some(t) => {
            let names = parse_tasklist_csv(t.as_str());
            fill_process_names(&mut entries, &names);
            assert(entry_views(entries@) =~= parsed.map_values(
                |e: PortEntryView| with_process(e, tasklist_names(lines_of(t@))),
            ));
        },
        None => {},
    }
    sort_entries_by_port(entries)
}

} // verus!
