//! Network interfaces and the live capture preview: interface records and
//! their ordering and display, the records read from sysfs, the preview
//! row of each captured frame and its one-line text.

use vstd::prelude::*;
use std::sync::Arc;
use std::sync::atomic::{AtomicBool, AtomicU64};
use crate::parser::{link_frame_view, opt_chars, or_empty, packet_summary, parse_link_frame, summary_view, LinkKind, ParsedPacket, PacketView};
use crate::scanner::opt_text;
use crate::table::{pad, strs};
use crate::scanner::pid_of;
use crate::text::{
    contains_sub, count_char, count_chars, eq_ignore_ascii_case, eq_ignore_ascii_case_chars, lines_chars,
    lines_of, lowercase, replace_char, replace_chars, split_chars, split_on, str_contains, to_lower,
    chars_of, dec, dec_string, join, join_chars, owned, parse_uint, parse_uint_chars, push_all,
    push_dec, push_str_chars, str_eq, string_from, to_upper, trim_chars, trim_ws, uppercase, views,
};

verus! {

// ---------------------------------------------------------------------------
// Interface records
// ---------------------------------------------------------------------------

/// One network interface.
#[derive(Clone, Debug)]
pub struct IfaceInfo {
    /// The name a capture is started with.
    pub name: String,
    /// The description, empty when unknown.
    pub description: String,
    /// The MAC address, when known.
    pub mac: Option<String>,
    /// Configured addresses such as `192.168.1.10/24`.
    pub addresses: Vec<String>,
    pub up: bool,
    pub running: bool,
    pub loopback: bool,
    pub wireless: bool,
}

/// The characters of each text field of an [`IfaceInfo`].
pub struct IfaceView {
    pub name: Seq<char>,
    pub description: Seq<char>,
    pub mac: Option<Seq<char>>,
    pub addresses: Seq<Seq<char>>,
    pub up: bool,
    pub running: bool,
    pub loopback: bool,
    pub wireless: bool,
}

impl View for IfaceInfo {
    type V = IfaceView;

    open spec fn view(&self) -> IfaceView {
        IfaceView {
            name: self.name@,
            description: self.description@,
            mac: opt_text(self.mac),
            addresses: strs(self.addresses@),
            up: self.up,
            running: self.running,
            loopback: self.loopback,
            wireless: self.wireless,
        }
    }
}

/// The views of a sequence of interfaces.
pub open spec fn iface_views(s: Seq<IfaceInfo>) -> Seq<IfaceView> {
    s.map_values(|f: IfaceInfo| f@)
}

/// The status words of an interface, in the order UP, RUNNING, LOOPBACK,
/// WIRELESS.
pub open spec fn status_words(f: IfaceView) -> Seq<Seq<char>> {
    let a: Seq<Seq<char>> = if f.up {
        seq!["UP"@]
    } else {
        Seq::empty()
    };
    let b: Seq<Seq<char>> = if f.running {
        a.push("RUNNING"@)
    } else {
        a
    };
    let c: Seq<Seq<char>> = if f.loopback {
        b.push("LOOPBACK"@)
    } else {
        b
    };
    if f.wireless {
        c.push("WIRELESS"@)
    } else {
        c
    }
}

/// The status text: the status words joined by commas, `DOWN` when there
/// is none.
pub open spec fn status_view(f: IfaceView) -> Seq<char> {
    let w = status_words(f);
    if w.len() == 0 {
        "DOWN"@
    } else {
        join(w, ","@)
    }
}

/// The short label of an interface: its name, ` - description` when the
/// description is not blank, ` [first address]` when it has one.
pub open spec fn label_view(f: IfaceView) -> Seq<char> {
    let desc = if trim_ws(f.description).len() == 0 {
        Seq::empty()
    } else {
        " - "@ + f.description
    };
    let addr = if f.addresses.len() == 0 {
        Seq::empty()
    } else {
        " ["@ + f.addresses[0] + "]"@
    };
    f.name + desc + addr
}

fn push_word(parts: &mut Vec<Vec<char>>, w: &str)
    ensures
        views(final(parts)@) == views(old(parts)@).push(w@),
{
    let v = chars_of(w);
    let ghost before = views(parts@);
    parts.push(v);
    assert(views(parts@) =~= before.push(w@));
}

impl IfaceInfo {
    /// The status text, such as `UP,RUNNING`.
    pub fn status_text(&self) -> (s: String)
        ensures
            s@ == status_view(self@),
    {
        let mut parts: Vec<Vec<char>> = Vec::new();
        if self.up {
            push_word(&mut parts, "UP");
        }
        if self.running {
            push_word(&mut parts, "RUNNING");
        }
        if self.loopback {
            push_word(&mut parts, "LOOPBACK");
        }
        if self.wireless {
            push_word(&mut parts, "WIRELESS");
        }
        assert(views(parts@) =~= status_words(self@));
        if parts.len() == 0 {
            owned("DOWN")
        } else {
            let sep = chars_of(",");
            let j = join_chars(&parts, &sep);
            string_from(&j)
        }
    }

    /// The short label shown in the interface picker.
    pub fn label(&self) -> (s: String)
        ensures
            s@ == label_view(self@),
    {
        let mut out = chars_of(self.name.as_str());
        let desc = chars_of(self.description.as_str());
        let t = trim_chars(&desc);
        if t.len() != 0 {
            push_str_chars(&mut out, " - ");
            push_str_chars(&mut out, self.description.as_str());
        }
        if self.addresses.len() > 0 {
            push_str_chars(&mut out, " [");
            push_str_chars(&mut out, self.addresses[0].as_str());
            push_str_chars(&mut out, "]");
        }
        proof {
            let v = self@;
            assert(v.addresses.len() > 0 ==> v.addresses[0] == self.addresses@[0]@);
            let d: Seq<char> = if trim_ws(v.description).len() == 0 {
                Seq::empty()
            } else {
                " - "@ + v.description
            };
            let a: Seq<char> = if v.addresses.len() == 0 {
                Seq::empty()
            } else {
                " ["@ + v.addresses[0] + "]"@
            };
            assert(out@ =~= v.name + d + a);
        }
        string_from(&out)
    }
}

/// `-` for a blank text, the text itself otherwise.
pub open spec fn dash_if_blank(s: Seq<char>) -> Seq<char> {
    if trim_ws(s).len() == 0 {
        "-"@
    } else {
        s
    }
}

/// `-` for a blank text, the text itself otherwise.
pub fn dash_if_empty(s: &str) -> (r: String)
    ensures
        r@ == dash_if_blank(s@),
{
    let c = chars_of(s);
    let t = trim_chars(&c);
    if t.len() == 0 {
        owned("-")
    } else {
        owned(s)
    }
}

/// The row of the interface table for the interface at position `i`:
/// number (from 1), name, description or `-`, addresses joined by `, ` or
/// `-`, MAC or `-`, status.
pub open spec fn iface_row_view(i: nat, f: IfaceView) -> Seq<Seq<char>> {
    seq![
        dec(i + 1),
        f.name,
        dash_if_blank(f.description),
        if f.addresses.len() == 0 {
            "-"@
        } else {
            join(f.addresses, ", "@)
        },
        match f.mac {
            Some(m) => m,
            None => "-"@,
        },
        status_view(f),
    ]
}

/// The rows of the interface table, one per interface in order.
pub fn interface_rows(ifaces: &[IfaceInfo]) -> (rows: Vec<Vec<String>>)
    ensures
        rows@.len() == ifaces@.len(),
        forall|i: int| 0 <= i < rows@.len() ==> #[trigger] strs(rows@[i]@) == iface_row_view(
            i as nat,
            ifaces@[i]@,
        ),
{
    let mut rows: Vec<Vec<String>> = Vec::new();
    let mut i: usize = 0;
    while i < ifaces.len()
        invariant
            i <= ifaces@.len(),
            rows@.len() == i,
            forall|k: int| 0 <= k < i ==> #[trigger] strs(rows@[k]@) == iface_row_view(
                k as nat,
                ifaces@[k]@,
            ),
        decreases ifaces@.len() - i,
    {
        let f = &ifaces[i];
        let mut row: Vec<String> = Vec::new();
        row.push(dec_string((i + 1) as u64));
        row.push(f.name.clone());
        row.push(dash_if_empty(f.description.as_str()));
        let addrs = if f.addresses.len() == 0 {
            owned("-")
        } else {
            let mut parts: Vec<Vec<char>> = Vec::new();
            let mut k: usize = 0;
            while k < f.addresses.len()
                invariant
                    k <= f.addresses@.len(),
                    views(parts@) == strs(f.addresses@).take(k as int),
                decreases f.addresses@.len() - k,
            {
                let ghost before = views(parts@);
                parts.push(chars_of(f.addresses[k].as_str()));
                assert(views(parts@) =~= before.push(f.addresses@[k as int]@));
                assert(strs(f.addresses@).take(k + 1) =~= strs(f.addresses@).take(k as int).push(
                    f.addresses@[k as int]@,
                ));
                k = k + 1;
            }
            assert(strs(f.addresses@).take(k as int) =~= strs(f.addresses@));
            let sep = chars_of(", ");
            let j = join_chars(&parts, &sep);
            string_from(&j)
        };
        row.push(addrs);
        let mac = match &f.mac {
            Some(m) => m.clone(),
            None => owned("-"),
        };
        row.push(mac);
        row.push(f.status_text());
        assert(strs(row@) =~= iface_row_view(i as nat, f@));
        rows.push(row);
        i = i + 1;
    }
    rows
}

// ---------------------------------------------------------------------------
// Ordering: running first, then non-loopback, then by name
// ---------------------------------------------------------------------------

/// `a <= b` in the lexicographic order of code points (`String`'s order).
pub open spec fn lex_le(a: Seq<char>, b: Seq<char>) -> bool
    decreases a.len(),
{
    if a.len() == 0 {
        true
    } else if b.len() == 0 {
        false
    } else if (a[0] as u32) < (b[0] as u32) {
        true
    } else if (a[0] as u32) > (b[0] as u32) {
        false
    } else {
        lex_le(a.drop_first(), b.drop_first())
    }
}

/// `a` may stay before `b`: running interfaces first, then non-loopback
/// ones, then by name.
pub open spec fn iface_le(a: IfaceView, b: IfaceView) -> bool {
    if a.running != b.running {
        a.running
    } else if a.loopback != b.loopback {
        !a.loopback
    } else {
        lex_le(a.name, b.name)
    }
}

/// Where an interface goes in a sorted sequence: after every interface
/// that may stay before it.
pub open spec fn iface_insert_pos(s: Seq<IfaceView>, x: IfaceView) -> int
    decreases s.len(),
{
    if s.len() == 0 {
        0
    } else if iface_le(s.last(), x) {
        s.len() as int
    } else {
        iface_insert_pos(s.drop_last(), x)
    }
}

/// The interfaces stably sorted by [`iface_le`] (insertion sort).
pub open spec fn sort_iface_views(s: Seq<IfaceView>) -> Seq<IfaceView>
    decreases s.len(),
{
    if s.len() == 0 {
        Seq::empty()
    } else {
        let r = sort_iface_views(s.drop_last());
        let j = iface_insert_pos(r, s.last());
        r.take(j) + seq![s.last()] + r.skip(j)
    }
}

proof fn lemma_lex_le_total(a: Seq<char>, b: Seq<char>)
    ensures
        lex_le(a, b) || lex_le(b, a),
    decreases a.len(),
{
    if a.len() > 0 && b.len() > 0 && (a[0] as u32) == (b[0] as u32) {
        lemma_lex_le_total(a.drop_first(), b.drop_first());
    }
}

proof fn lemma_lex_le_trans(a: Seq<char>, b: Seq<char>, c: Seq<char>)
    requires
        lex_le(a, b),
        lex_le(b, c),
    ensures
        lex_le(a, c),
    decreases a.len(),
{
    if a.len() > 0 && b.len() > 0 && c.len() > 0 {
        if (a[0] as u32) == (b[0] as u32) && (b[0] as u32) == (c[0] as u32) {
            lemma_lex_le_trans(a.drop_first(), b.drop_first(), c.drop_first());
        }
    }
}

/// The interface order is total.
pub proof fn lemma_iface_le_total(a: IfaceView, b: IfaceView)
    ensures
        iface_le(a, b) || iface_le(b, a),
{
    lemma_lex_le_total(a.name, b.name);
}

/// The interface order is transitive.
pub proof fn lemma_iface_le_trans(a: IfaceView, b: IfaceView, c: IfaceView)
    requires
        iface_le(a, b),
        iface_le(b, c),
    ensures
        iface_le(a, c),
{
    if a.running == b.running && b.running == c.running && a.loopback == b.loopback && b.loopback
        == c.loopback {
        lemma_lex_le_trans(a.name, b.name, c.name);
    }
}

/// Each interface may stay before every later one.
pub open spec fn ifaces_sorted(s: Seq<IfaceView>) -> bool {
    forall|i: int, j: int| 0 <= i < j < s.len() ==> iface_le(s[i], s[j])
}

proof fn lemma_iface_insert_pos_split(s: Seq<IfaceView>, x: IfaceView)
    requires
        ifaces_sorted(s),
    ensures
        0 <= iface_insert_pos(s, x) <= s.len(),
        forall|i: int| 0 <= i < iface_insert_pos(s, x) ==> iface_le(#[trigger] s[i], x),
        forall|i: int| iface_insert_pos(s, x) <= i < s.len() ==> !iface_le(#[trigger] s[i], x),
    decreases s.len(),
{
    if s.len() > 0 {
        let n = s.len() - 1;
        if iface_le(s.last(), x) {
            assert forall|i: int| 0 <= i < s.len() implies iface_le(#[trigger] s[i], x) by {
                if i < n {
                    lemma_iface_le_trans(s[i], s[n], x);
                }
            }
        } else {
            let d = s.drop_last();
            assert(ifaces_sorted(d)) by {
                assert forall|i: int, j: int| 0 <= i < j < d.len() implies iface_le(d[i], d[j]) by {
                    assert(d[i] == s[i] && d[j] == s[j]);
                }
            }
            lemma_iface_insert_pos_split(d, x);
            assert forall|i: int| iface_insert_pos(s, x) <= i < s.len() implies !iface_le(
                #[trigger] s[i],
                x,
            ) by {
                if i < n {
                    assert(d[i] == s[i]);
                }
            }
            assert forall|i: int| 0 <= i < iface_insert_pos(s, x) implies iface_le(#[trigger] s[i], x) by {
                assert(d[i] == s[i]);
            }
        }
    }
}

/// Sorting interfaces keeps the same interfaces (as a multiset) and leaves
/// each one allowed before every later one: running before not running,
/// then non-loopback before loopback, then by name.
pub proof fn lemma_sort_ifaces(s: Seq<IfaceView>)
    ensures
        sort_iface_views(s).to_multiset() == s.to_multiset(),
        sort_iface_views(s).len() == s.len(),
        ifaces_sorted(sort_iface_views(s)),
    decreases s.len(),
{
    broadcast use vstd::seq_lib::group_to_multiset_ensures;

    if s.len() > 0 {
        let d = s.drop_last();
        let x = s.last();
        let r = sort_iface_views(d);
        lemma_sort_ifaces(d);
        let j = iface_insert_pos(r, x);
        lemma_iface_insert_pos_split(r, x);
        let out = r.take(j) + seq![x] + r.skip(j);
        assert(out =~= r.insert(j, x));
        assert(s =~= d.push(x));
        assert(out.to_multiset() == r.to_multiset().insert(x));
        assert(s.to_multiset() == d.to_multiset().insert(x));
        assert forall|a: int, b: int| 0 <= a < b < out.len() implies iface_le(out[a], out[b]) by {
            if b < j {
                assert(out[a] == r[a] && out[b] == r[b]);
            } else if b == j {
                assert(out[a] == r[a] && out[b] == x);
            } else if a < j {
                assert(out[a] == r[a] && out[b] == r[b - 1]);
            } else if a == j {
                assert(out[a] == x && out[b] == r[b - 1]);
                lemma_iface_le_total(r[b - 1], x);
            } else {
                assert(out[a] == r[a - 1] && out[b] == r[b - 1]);
            }
        }
    }
}

fn lex_le_exec(a: &[char], b: &[char]) -> (r: bool)
    ensures
        r == lex_le(a@, b@),
{
    let mut i: usize = 0;
    assert(a@.skip(0) =~= a@);
    assert(b@.skip(0) =~= b@);
    while i < a.len() && i < b.len() && (a[i] as u32) == (b[i] as u32)
        invariant
            i <= a@.len(),
            i <= b@.len(),
            lex_le(a@, b@) == lex_le(a@.skip(i as int), b@.skip(i as int)),
        decreases a@.len() - i,
    {
        assert(a@.skip(i as int).drop_first() =~= a@.skip(i + 1));
        assert(b@.skip(i as int).drop_first() =~= b@.skip(i + 1));
        i = i + 1;
    }
    if i == a.len() {
        return true;
    }
    if i == b.len() {
        return false;
    }
    let x = a[i];
    let y = b[i];
    assert(a@.skip(i as int)[0] == x);
    assert(b@.skip(i as int)[0] == y);
    (x as u32) < (y as u32)
}

fn iface_le_exec(a: &IfaceInfo, b: &IfaceInfo) -> (r: bool)
    ensures
        r == iface_le(a@, b@),
{
    if a.running != b.running {
        a.running
    } else if a.loopback != b.loopback {
        !a.loopback
    } else {
        let an = chars_of(a.name.as_str());
        let bn = chars_of(b.name.as_str());
        lex_le_exec(&an, &bn)
    }
}

/// Sorts interfaces: running ones first, then non-loopback ones, then by
/// name; interfaces that compare equal keep their order.
pub fn sort_ifaces(v: Vec<IfaceInfo>) -> (r: Vec<IfaceInfo>)
    ensures
        iface_views(r@) == sort_iface_views(iface_views(v@)),
{
    let ghost src = iface_views(v@);
    let mut rest = v;
    let mut r: Vec<IfaceInfo> = Vec::new();
    let ghost mut m: int = 0;
    assert(src.take(0) =~= Seq::<IfaceView>::empty());
    assert(iface_views(rest@) =~= src.skip(0));
    while rest.len() > 0
        invariant
            0 <= m <= src.len(),
            src.len() == m + rest@.len(),
            iface_views(rest@) == src.skip(m),
            iface_views(r@) == sort_iface_views(src.take(m)),
        decreases rest@.len(),
    {
        let ghost before = rest@;
        let x = rest.remove(0);
        let ghost sv = iface_views(r@);
        proof {
            assert(rest@ =~= before.drop_first());
            assert(iface_views(before)[0] == x@);
            assert forall|i: int| 0 <= i < rest@.len() implies #[trigger] iface_views(rest@)[i]
                == src.skip(m + 1)[i] by {
                assert(iface_views(before)[i + 1] == src.skip(m)[i + 1]);
            }
            assert(iface_views(rest@) =~= src.skip(m + 1));
        }
        let mut j: usize = r.len();
        assert(sv.take(j as int) =~= sv);
        while j > 0 && !iface_le_exec(&r[j - 1], &x)
            invariant
                j <= r@.len(),
                sv == iface_views(r@),
                iface_insert_pos(sv, x@) == iface_insert_pos(sv.take(j as int), x@),
            decreases j,
        {
            assert(sv.take(j - 1) =~= sv.take(j as int).drop_last());
            j = j - 1;
        }
        proof {
            if j > 0 {
                assert(sv.take(j as int).last() == sv[j - 1]);
            }
            assert(src.take(m + 1).drop_last() =~= src.take(m));
            assert(src.take(m + 1).last() == x@);
        }
        let ghost xv = x@;
        r.insert(j, x);
        proof {
            assert(iface_views(r@) =~= sv.take(j as int) + seq![xv] + sv.skip(j as int));
            m = m + 1;
        }
    }
    assert(src.take(m) =~= src);
    r
}

// ---------------------------------------------------------------------------
// Interfaces from sysfs
// ---------------------------------------------------------------------------

/// The index of the first `c` in `s`, or -1 when there is none.
pub open spec fn first_index(s: Seq<char>, c: char) -> int
    decreases s.len(),
{
    if s.len() == 0 {
        -1
    } else {
        let r = first_index(s.drop_last(), c);
        if r >= 0 {
            r
        } else if s.last() == c {
            s.len() - 1
        } else {
            -1
        }
    }
}

/// Leading `0x` prefixes removed (`str::trim_start_matches("0x")`).
pub open spec fn strip_hex_prefixes(s: Seq<char>) -> Seq<char>
    decreases s.len(),
{
    if s.len() >= 2 && s[0] == '0' && s[1] == 'x' {
        strip_hex_prefixes(s.skip(2))
    } else {
        s
    }
}

fn strip_hex_prefixes_exec(s: &[char]) -> (r: Vec<char>)
    ensures
        r@ == strip_hex_prefixes(s@),
{
    let mut i: usize = 0;
    assert(s@.skip(0) =~= s@);
    while i < s.len() && s.len() - i >= 2 && s[i] == '0' && s[i + 1] == 'x'
        invariant
            i <= s@.len(),
            strip_hex_prefixes(s@) == strip_hex_prefixes(s@.skip(i as int)),
        decreases s@.len() - i,
    {
        assert(s@.skip(i as int).skip(2) =~= s@.skip(i + 2));
        i = i + 2;
    }
    let r = crate::text::copy_range(s, i, s.len());
    assert(r@ =~= s@.skip(i as int));
    r
}

/// The interface flags word of sysfs (hexadecimal, optionally after `0x`
/// prefixes), 0 when missing or unreadable.
pub open spec fn flags_word(flags: Option<Seq<char>>) -> u32 {
    match flags {
        Some(f) => match parse_uint(strip_hex_prefixes(trim_ws(f)), 16, 0xFFFF_FFFF) {
            Some(v) => v as u32,
            None => 0,
        },
        None => 0,
    }
}

/// The MAC address read from sysfs: trimmed and upper-cased, none when it
/// is missing or blank.
pub open spec fn sysfs_mac(address: Option<Seq<char>>) -> Option<Seq<char>> {
    match address {
        Some(a) => if trim_ws(a).len() == 0 {
            None
        } else {
            Some(uppercase(trim_ws(a)))
        },
        None => None,
    }
}

/// The interface described by the files of `/sys/class/net/<name>`: the
/// contents of `address`, `operstate` and `flags` when they could be read,
/// and whether a `wireless` entry exists.  An interface is up when its
/// trimmed operational state is `up` or `unknown`, running when it is `up`,
/// loopback when flag bit 0x8 (IFF_LOOPBACK) is set.
pub open spec fn sysfs_iface_view(
    name: Seq<char>,
    address: Option<Seq<char>>,
    operstate: Option<Seq<char>>,
    flags: Option<Seq<char>>,
    wireless: bool,
) -> IfaceView {
    let state = or_empty(
        match operstate {
            Some(s) => Some(trim_ws(s)),
            None => None,
        },
    );
    IfaceView {
        name,
        description: Seq::empty(),
        mac: sysfs_mac(address),
        addresses: Seq::empty(),
        up: state == "up"@ || state == "unknown"@,
        running: state == "up"@,
        loopback: flags_word(flags) & 8 != 0,
        wireless,
    }
}

/// Builds the interface record from what sysfs holds for it.
pub fn sysfs_iface(
    name: String,
    address: Option<String>,
    operstate: Option<String>,
    flags: Option<String>,
    wireless: bool,
) -> (f: IfaceInfo)
    ensures
        f@ == sysfs_iface_view(name@, opt_text(address), opt_text(operstate), opt_text(flags), wireless),
{
    let mac = match &address {
        Some(a) => {
            let c = chars_of(a.as_str());
            let t = trim_chars(&c);
            if t.len() == 0 {
                None
            } else {
                let ts = string_from(&t);
                Some(to_upper(ts.as_str()))
            }
        },
        None => None,
    };
    let state: Vec<char> = match &operstate {
        Some(s) => {
            let c = chars_of(s.as_str());
            trim_chars(&c)
        },
        None => Vec::new(),
    };
    let iflags: u32 = match &flags {
        Some(f) => {
            let c = chars_of(f.as_str());
            let t = trim_chars(&c);
            let h = strip_hex_prefixes_exec(&t);
            match parse_uint_chars(&h, 16, 0xFFFF_FFFF) {
                Some(v) => v as u32,
                None => 0,
            }
        },
        None => 0,
    };
    let up_word = chars_of("up");
    let unknown_word = chars_of("unknown");
    let is_up = crate::text::chars_eq(&state, &up_word);
    let is_unknown = crate::text::chars_eq(&state, &unknown_word);
    proof {
        assert(opt_text(mac) == sysfs_mac(opt_text(address)));
        assert(state@ == or_empty(
            match opt_text(operstate) {
                Some(s) => Some(trim_ws(s)),
                None => None,
            },
        ));
        assert(iflags == flags_word(opt_text(flags)));
    }
    let f = IfaceInfo {
        name,
        description: String::new(),
        mac,
        addresses: Vec::new(),
        up: is_up || is_unknown,
        running: is_up,
        loopback: iflags & 8 != 0,
        wireless,
    };
    assert(f@.description =~= Seq::<char>::empty());
    assert(f@.addresses =~= Seq::<Seq<char>>::empty());
    f
}

/// The key a device name is matched by: its `{GUID}` part (from the first
/// `{` to the last `}`) when there is one, otherwise the whole name; upper
/// case either way.
pub open spec fn guid_key_view(name: Seq<char>) -> Seq<char> {
    let a = first_index(name, '{');
    let b = crate::scanner::last_index(name, '}');
    if a >= 0 && b >= 0 && b > a {
        uppercase(name.subrange(a, b + 1))
    } else {
        uppercase(name)
    }
}

proof fn lemma_first_index_prefix(s: Seq<char>, c: char, k: int)
    requires
        0 <= k <= s.len(),
        first_index(s.take(k), c) >= 0,
    ensures
        first_index(s, c) == first_index(s.take(k), c),
    decreases s.len() - k,
{
    if k < s.len() {
        assert(s.take(k + 1).drop_last() =~= s.take(k));
        lemma_first_index_prefix(s, c, k + 1);
    } else {
        assert(s.take(k) =~= s);
    }
}

fn find_char(s: &[char], c: char) -> (r: Option<usize>)
    ensures
        match r {
            Some(i) => i == first_index(s@, c),
            None => first_index(s@, c) == -1,
        },
{
    let mut i: usize = 0;
    assert(s@.take(0) =~= Seq::<char>::empty());
    while i < s.len()
        invariant
            i <= s@.len(),
            first_index(s@.take(i as int), c) == -1,
        decreases s@.len() - i,
    {
        assert(s@.take(i + 1).drop_last() =~= s@.take(i as int));
        if s[i] == c {
            proof {
                lemma_first_index_prefix(s@, c, i + 1);
            }
            return Some(i);
        }
        i = i + 1;
    }
    assert(s@.take(i as int) =~= s@);
    None
}

/// The key a device name is matched by (see [`guid_key_view`]).
pub fn guid_key(name: &str) -> (k: String)
    ensures
        k@ == guid_key_view(name@),
{
    let c = chars_of(name);
    let clen = c.len();
    match (find_char(&c, '{'), crate::scanner::rfind_char(&c, '}')) {
        (Some(a), Some(b)) => {
            if b > a {
                proof {
                    crate::scanner::lemma_last_index_bounds(c@, '}');
                }
                assert(b < clen);
                let part = crate::text::copy_range(&c, a, b + 1);
                let ps = string_from(&part);
                to_upper(ps.as_str())
            } else {
                to_upper(name)
            }
        },
        _ => to_upper(name),
    }
}

// ---------------------------------------------------------------------------
// Live capture preview
// ---------------------------------------------------------------------------

/// One row of the live capture preview.  `timestamp_ns` is the capture time
/// in nanoseconds since the Unix epoch.
#[derive(Clone, Debug)]
pub struct PreviewRow {
    pub seq: u64,
    pub timestamp_ns: u64,
    pub src: String,
    pub dst: String,
    pub protocol: String,
    pub length: u32,
    pub summary: String,
}

/// The characters of each text field of a [`PreviewRow`].
pub struct PreviewView {
    pub seq: u64,
    pub timestamp_ns: u64,
    pub src: Seq<char>,
    pub dst: Seq<char>,
    pub protocol: Seq<char>,
    pub length: u32,
    pub summary: Seq<char>,
}

impl View for PreviewRow {
    type V = PreviewView;

    open spec fn view(&self) -> PreviewView {
        PreviewView {
            seq: self.seq,
            timestamp_ns: self.timestamp_ns,
            src: self.src@,
            dst: self.dst@,
            protocol: self.protocol@,
            length: self.length,
            summary: self.summary@,
        }
    }
}

/// What the capture worker reports.
#[derive(Clone, Debug)]
pub enum IfaceEvent {
    Status(String),
    Packet(PreviewRow),
}

/// `ip:port`, the address alone without a port, `-` without an address.
pub open spec fn addr_view(ip: Option<Seq<char>>, port: Option<u16>) -> Seq<char> {
    match (ip, port) {
        (Some(i), Some(p)) => i + ":"@ + dec(p as nat),
        (Some(i), None) => i,
        _ => "-"@,
    }
}

/// Formats an endpoint of a packet.
pub fn format_addr(ip: Option<&str>, port: Option<u16>) -> (s: String)
    ensures
        s@ == addr_view(
            match ip {
                Some(i) => Some(i@),
                None => None,
            },
            port,
        ),
{
    match (ip, port) {
        (Some(i), Some(p)) => {
            let mut v = chars_of(i);
            push_str_chars(&mut v, ":");
            push_dec(&mut v, p as u64);
            string_from(&v)
        },
        (Some(i), None) => owned(i),
        _ => owned("-"),
    }
}

/// The protocol column: `TCP [flags]` for TCP, the protocol otherwise.
pub open spec fn protocol_label_view(p: PacketView) -> Seq<char> {
    match p.tcp_flags {
        Some(f) => "TCP ["@ + f + "]"@,
        None => p.protocol,
    }
}

/// Formats the protocol column of a packet.
pub fn protocol_label(p: &ParsedPacket) -> (s: String)
    ensures
        s@ == protocol_label_view(p@),
{
    match &p.tcp_flags {
        Some(f) => {
            let mut v = chars_of("TCP [");
            push_str_chars(&mut v, f.as_str());
            push_str_chars(&mut v, "]");
            string_from(&v)
        },
        None => p.protocol.clone(),
    }
}

/// The preview row of a captured frame: the frame decoded for its link
/// type, its endpoints, protocol column, length (as a `u32`) and summary.
pub open spec fn preview_row_view(data: Seq<u8>, seq: u64, ts: u64, kind: LinkKind) -> PreviewView {
    let p = link_frame_view(data, seq, ts, kind);
    PreviewView {
        seq,
        timestamp_ns: ts,
        src: addr_view(p.src_ip, p.src_port),
        dst: addr_view(p.dst_ip, p.dst_port),
        protocol: protocol_label_view(p),
        length: data.len() as u32,
        summary: summary_view(p, data),
    }
}

fn opt_str(o: &Option<String>) -> (r: Option<&str>)
    ensures
        match r {
            Some(s) => opt_chars(*o) == Some(s@),
            None => opt_chars(*o) is None,
        },
{
    match o {
        Some(s) => Some(s.as_str()),
        None => None,
    }
}

/// Builds the preview row of a captured frame.
pub fn preview_row(data: &[u8], seq: u64, timestamp_ns: u64, kind: LinkKind) -> (r: PreviewRow)
    ensures
        r@ == preview_row_view(data@, seq, timestamp_ns, kind),
{
    let parsed = parse_link_frame(data, seq, timestamp_ns, kind);
    let src = format_addr(opt_str(&parsed.src_ip), parsed.src_port);
    let dst = format_addr(opt_str(&parsed.dst_ip), parsed.dst_port);
    let protocol = protocol_label(&parsed);
    let summary = packet_summary(&parsed, data);
    PreviewRow { seq, timestamp_ns, src, dst, protocol, length: data.len() as u32, summary }
}

/// A text padded with spaces on the right to `w` characters (`{:<w}`).
pub open spec fn pad_right(s: Seq<char>, w: nat) -> Seq<char> {
    if s.len() < w {
        s + pad((w - s.len()) as nat, ' ')
    } else {
        s
    }
}

/// A text padded with spaces on the left to `w` characters (`{:>w}`).
pub open spec fn pad_left(s: Seq<char>, w: nat) -> Seq<char> {
    if s.len() < w {
        pad((w - s.len()) as nat, ' ') + s
    } else {
        s
    }
}

fn push_spaces(out: &mut Vec<char>, n: usize)
    ensures
        final(out)@ == old(out)@ + pad(n as nat, ' '),
{
    let ghost start = out@;
    let mut i: usize = 0;
    while i < n
        invariant
            i <= n,
            out@ == start + pad(i as nat, ' '),
        decreases n - i,
    {
        out.push(' ');
        assert(start + pad(i as nat, ' ') + seq![' '] =~= start + pad((i + 1) as nat, ' '));
        i = i + 1;
    }
}

/// Appends `s` padded on the right to `w` characters.
pub fn push_padded_right(out: &mut Vec<char>, s: &[char], w: usize)
    ensures
        final(out)@ == old(out)@ + pad_right(s@, w as nat),
{
    push_all(out, s);
    if s.len() < w {
        push_spaces(out, w - s.len());
    }
    assert(final(out)@ =~= old(out)@ + pad_right(s@, w as nat)) by {
        if s@.len() >= w {
            assert(pad_right(s@, w as nat) == s@);
        }
    };
}

/// Appends `s` padded on the left to `w` characters.
pub fn push_padded_left(out: &mut Vec<char>, s: &[char], w: usize)
    ensures
        final(out)@ == old(out)@ + pad_left(s@, w as nat),
{
    let ghost start = out@;
    if s.len() < w {
        push_spaces(out, w - s.len());
    }
    push_all(out, s);
    assert(out@ =~= start + pad_left(s@, w as nat));
}

/// The one-line text of a preview row, given the text of its time:
/// `#seq time src -> dst protocol length B  summary`, with the sequence
/// number, the endpoints and the protocol padded on the right (6, 24, 24
/// and 14 characters) and the length on the left (6).
pub open spec fn preview_line_view(r: PreviewView, time: Seq<char>) -> Seq<char> {
    "#"@ + pad_right(dec(r.seq as nat), 6) + " "@ + time + " "@ + pad_right(r.src, 24) + " -> "@
        + pad_right(r.dst, 24) + " "@ + pad_right(r.protocol, 14) + " "@ + pad_left(
        dec(r.length as nat),
        6,
    ) + " B  "@ + r.summary
}

/// Formats a preview row as one line, given the text of its time.
pub fn format_preview(row: &PreviewRow, time: &str) -> (s: String)
    ensures
        s@ == preview_line_view(row@, time@),
{
    let mut out = chars_of("#");
    let mut seq_text: Vec<char> = Vec::new();
    push_dec(&mut seq_text, row.seq);
    push_padded_right(&mut out, &seq_text, 6);
    push_str_chars(&mut out, " ");
    push_str_chars(&mut out, time);
    push_str_chars(&mut out, " ");
    let src = chars_of(row.src.as_str());
    push_padded_right(&mut out, &src, 24);
    push_str_chars(&mut out, " -> ");
    let dst = chars_of(row.dst.as_str());
    push_padded_right(&mut out, &dst, 24);
    push_str_chars(&mut out, " ");
    let proto = chars_of(row.protocol.as_str());
    push_padded_right(&mut out, &proto, 14);
    push_str_chars(&mut out, " ");
    let mut len_text: Vec<char> = Vec::new();
    push_dec(&mut len_text, row.length as u64);
    push_padded_left(&mut out, &len_text, 6);
    push_str_chars(&mut out, " B  ");
    push_str_chars(&mut out, row.summary.as_str());
    assert(seq_text@ =~= dec(row.seq as nat));
    assert(len_text@ =~= dec(row.length as nat));
    assert(out@ =~= preview_line_view(row@, time@));
    string_from(&out)
}

// ---------------------------------------------------------------------------
// Capture counters shared with the worker
// ---------------------------------------------------------------------------

/// Packet and byte counts shared between the capture worker and readers.
pub struct CaptureCounters {
    pub packets: AtomicU64,
    pub bytes: AtomicU64,
}

impl CaptureCounters {
    /// Both counts at zero.
    pub fn new() -> (c: CaptureCounters) {
        CaptureCounters { packets: AtomicU64::new(0), bytes: AtomicU64::new(0) }
    }
}

/// A handle on a running interface capture: a stop request and the shared
/// counts.
#[derive(Clone)]
pub struct IfaceCaptureHandle {
    stop: Arc<AtomicBool>,
    counters: Arc<CaptureCounters>,
}

impl IfaceCaptureHandle {
    /// A handle with no stop requested and zero counts.
    pub fn new() -> (h: IfaceCaptureHandle) {
        IfaceCaptureHandle {
            stop: Arc::new(AtomicBool::new(false)),
            counters: Arc::new(CaptureCounters::new()),
        }
    }

    /// Requests the capture to stop (the worker sees it at its next read
    /// timeout).
    pub fn stop(&self) {
        self.stop.store(true, std::sync::atomic::Ordering::SeqCst);
    }

    /// Whether a stop was requested (shared between threads, so nothing is
    /// stated of the value).
    pub fn stop_requested(&self) -> bool {
        self.stop.load(std::sync::atomic::Ordering::SeqCst)
    }

    /// Counts one captured frame of `len` bytes.
    pub fn record(&self, len: u64) {
        self.counters.packets.fetch_add(1, std::sync::atomic::Ordering::Relaxed);
        self.counters.bytes.fetch_add(len, std::sync::atomic::Ordering::Relaxed);
    }

    /// The packets and bytes captured so far.
    pub fn counters(&self) -> (u64, u64) {
        (
            self.counters.packets.load(std::sync::atomic::Ordering::Relaxed),
            self.counters.bytes.load(std::sync::atomic::Ordering::Relaxed),
        )
    }
}

// ---------------------------------------------------------------------------
// Interfaces from the PowerShell listing (Windows without libpcap)
// ---------------------------------------------------------------------------

/// A line of the PowerShell interface listing: an address of the interface
/// with some index, an adapter with its index, or anything else.
pub enum PsLine {
    Ip(u32, Seq<char>),
    Adapter(u32, IfaceView),
    Other,
}

/// The MAC address of the listing: trimmed, `-` replaced by `:`, upper
/// case; kept only when it then holds exactly five colons.
pub open spec fn ps_mac(raw: Seq<char>) -> Option<Seq<char>> {
    let m = uppercase(replace_char(trim_ws(raw), '-', ':'));
    if count_char(m, ':') == 5 {
        Some(m)
    } else {
        None
    }
}

/// What a line of the listing says.  `IP|index|address` gives an address
/// when the index is a number; `AD|index|name|description|mac|status` gives
/// an adapter (index 0 when unreadable), up and running when its status is
/// `up` in any ASCII case, loopback or wireless by words of its lower-cased
/// description.  Fields are trimmed.
pub open spec fn ps_line(raw: Seq<char>) -> PsLine {
    let line = trim_ws(raw);
    if line.len() == 0 {
        PsLine::Other
    } else {
        let parts = split_on(line, '|');
        if parts.len() >= 3 && parts[0] == "IP"@ {
            match pid_of(trim_ws(parts[1])) {
                Some(i) => PsLine::Ip(i, trim_ws(parts[2])),
                None => PsLine::Other,
            }
        } else if parts.len() >= 6 && parts[0] == "AD"@ {
            let desc = trim_ws(parts[3]);
            let lower = lowercase(desc);
            let up = eq_ignore_ascii_case(trim_ws(parts[5]), "up"@);
            PsLine::Adapter(
                match pid_of(trim_ws(parts[1])) {
                    Some(i) => i,
                    None => 0,
                },
                IfaceView {
                    name: trim_ws(parts[2]),
                    description: desc,
                    mac: ps_mac(parts[4]),
                    addresses: Seq::empty(),
                    up,
                    running: up,
                    loopback: contains_sub(lower, "loopback"@),
                    wireless: contains_sub(lower, "wireless"@) || contains_sub(lower, "wi-fi"@)
                        || contains_sub(lower, "wlan"@) || contains_sub(lower, "802.11"@),
                },
            )
        } else {
            PsLine::Other
        }
    }
}

/// The (index, address) pairs of the listing, in order.
pub open spec fn ps_ips(lines: Seq<Seq<char>>) -> Seq<(u32, Seq<char>)>
    decreases lines.len(),
{
    if lines.len() == 0 {
        Seq::empty()
    } else {
        match ps_line(lines.last()) {
            PsLine::Ip(i, a) => ps_ips(lines.drop_last()).push((i, a)),
            _ => ps_ips(lines.drop_last()),
        }
    }
}

/// The (index, adapter) pairs of the listing, in order.
pub open spec fn ps_adapters(lines: Seq<Seq<char>>) -> Seq<(u32, IfaceView)>
    decreases lines.len(),
{
    if lines.len() == 0 {
        Seq::empty()
    } else {
        match ps_line(lines.last()) {
            PsLine::Adapter(i, f) => ps_adapters(lines.drop_last()).push((i, f)),
            _ => ps_adapters(lines.drop_last()),
        }
    }
}

/// The addresses listed for an index, in order.
pub open spec fn addrs_for(ips: Seq<(u32, Seq<char>)>, idx: u32) -> Seq<Seq<char>>
    decreases ips.len(),
{
    if ips.len() == 0 {
        Seq::empty()
    } else if ips.last().0 == idx {
        addrs_for(ips.drop_last(), idx).push(ips.last().1)
    } else {
        addrs_for(ips.drop_last(), idx)
    }
}

/// No earlier adapter has the same index as the `k`-th.
pub open spec fn first_of_index(ads: Seq<(u32, IfaceView)>, k: int) -> bool {
    forall|j: int| 0 <= j < k ==> (#[trigger] ads[j]).0 != ads[k].0
}

/// The adapter at position `k` with its addresses: those listed for its
/// index when it is the first adapter with that index, none otherwise.
pub open spec fn ps_iface_at(ads: Seq<(u32, IfaceView)>, ips: Seq<(u32, Seq<char>)>, k: int) -> IfaceView {
    let f = ads[k].1;
    IfaceView {
        name: f.name,
        description: f.description,
        mac: f.mac,
        addresses: if first_of_index(ads, k) {
            addrs_for(ips, ads[k].0)
        } else {
            Seq::empty()
        },
        up: f.up,
        running: f.running,
        loopback: f.loopback,
        wireless: f.wireless,
    }
}

/// The interfaces of the listing, in the order of their lines.
pub open spec fn ps_ifaces(stdout: Seq<char>) -> Seq<IfaceView> {
    let lines = lines_of(stdout);
    let ads = ps_adapters(lines);
    Seq::new(ads.len(), |k: int| ps_iface_at(ads, ps_ips(lines), k))
}

fn trimmed_text(s: &[char]) -> (r: String)
    ensures
        r@ == trim_ws(s@),
{
    let t = trim_chars(s);
    string_from(&t)
}

fn read_u32(s: &[char]) -> (r: Option<u32>)
    ensures
        r == pid_of(s@),
{
    match parse_uint_chars(s, 10, 0xFFFF_FFFF) {
        Some(v) => Some(v as u32),
        None => None,
    }
}

/// One line of the listing: an address, an adapter, or nothing.
fn ps_line_exec(raw: &[char]) -> (r: (Option<(u32, String)>, Option<(u32, IfaceInfo)>))
    ensures
        match ps_line(raw@) {
            PsLine::Ip(i, a) => r.0 == Some((i, r.0->Some_0.1)) && r.0->Some_0.1@ == a && r.1 is None,
            PsLine::Adapter(i, f) => r.0 is None && r.1 is Some && r.1->Some_0.0 == i
                && r.1->Some_0.1@ == f,
            PsLine::Other => r.0 is None && r.1 is None,
        },
{
    let line = trim_chars(raw);
    if line.len() == 0 {
        return (None, None);
    }
    let parts = split_chars(&line, '|');
    let ip_word = chars_of("IP");
    let ad_word = chars_of("AD");
    if parts.len() >= 3 && crate::text::chars_eq(&parts[0], &ip_word) {
        let it = trim_chars(&parts[1]);
        return match read_u32(&it) {
            Some(i) => (Some((i, trimmed_text(&parts[2]))), None),
            None => (None, None),
        };
    }
    if parts.len() >= 6 && crate::text::chars_eq(&parts[0], &ad_word) {
        let it = trim_chars(&parts[1]);
        let idx: u32 = match read_u32(&it) {
            Some(i) => i,
            None => 0,
        };
        let desc = trimmed_text(&parts[3]);
        let lower = to_lower(desc.as_str());
        let st = trim_chars(&parts[5]);
        let up_word = chars_of("up");
        let up = eq_ignore_ascii_case_chars(&st, &up_word);
        let mt = trim_chars(&parts[4]);
        let mr = replace_chars(&mt, '-', ':');
        let ms = string_from(&mr);
        let mu = to_upper(ms.as_str());
        let mc = chars_of(mu.as_str());
        let mac = if count_chars(&mc, ':') == 5 {
            Some(mu)
        } else {
            None
        };
        let loopback = str_contains(lower.as_str(), "loopback");
        let wireless = str_contains(lower.as_str(), "wireless") || str_contains(lower.as_str(), "wi-fi")
            || str_contains(lower.as_str(), "wlan") || str_contains(lower.as_str(), "802.11");
        let f = IfaceInfo {
            name: trimmed_text(&parts[2]),
            description: desc,
            mac,
            addresses: Vec::new(),
            up,
            running: up,
            loopback,
            wireless,
        };
        assert(f@.addresses =~= Seq::<Seq<char>>::empty());
        return (None, Some((idx, f)));
    }
    (None, None)
}

/// The views of (index, adapter) pairs.
pub open spec fn adapter_views(v: Seq<(u32, IfaceInfo)>) -> Seq<(u32, IfaceView)> {
    v.map_values(|p: (u32, IfaceInfo)| (p.0, p.1@))
}

/// The views of (index, address) pairs.
pub open spec fn ip_views(v: Seq<(u32, String)>) -> Seq<(u32, Seq<char>)> {
    v.map_values(|p: (u32, String)| (p.0, p.1@))
}

fn addresses_of(ips: &[(u32, String)], idx: u32) -> (r: Vec<String>)
    ensures
        strs(r@) == addrs_for(ip_views(ips@), idx),
{
    let ghost iv = ip_views(ips@);
    let mut r: Vec<String> = Vec::new();
    let mut k: usize = 0;
    assert(iv.take(0) =~= Seq::<(u32, Seq<char>)>::empty());
    while k < ips.len()
        invariant
            iv == ip_views(ips@),
            k <= ips@.len(),
            strs(r@) == addrs_for(iv.take(k as int), idx),
        decreases ips@.len() - k,
    {
        proof {
            assert(iv.take(k + 1).drop_last() =~= iv.take(k as int));
            assert(iv.take(k + 1).last() == (ips@[k as int].0, ips@[k as int].1@));
        }
        if ips[k].0 == idx {
            let ghost before = strs(r@);
            r.push(ips[k].1.clone());
            assert(strs(r@) =~= before.push(ips@[k as int].1@));
        }
        k = k + 1;
    }
    assert(iv.take(ips@.len() as int) =~= iv);
    r
}

/// Reads the PowerShell interface listing: the adapters in line order, each
/// with the addresses listed for its index (the first adapter of an index
/// takes them all), then sorted like every interface list.
pub fn parse_powershell_ifaces(stdout: &str) -> (r: Vec<IfaceInfo>)
    ensures
        iface_views(r@) == sort_iface_views(ps_ifaces(stdout@)),
{
    let chars = chars_of(stdout);
    let ls = lines_chars(&chars);
    let ghost lv = lines_of(stdout@);
    let mut ips: Vec<(u32, String)> = Vec::new();
    let mut ads: Vec<(u32, IfaceInfo)> = Vec::new();
    let mut i: usize = 0;
    assert(lv.take(0) =~= Seq::<Seq<char>>::empty());
    while i < ls.len()
        invariant
            lv == lines_of(stdout@),
            ls@.len() == lv.len(),
            forall|k: int| 0 <= k < ls@.len() ==> #[trigger] ls@[k]@ == lv[k],
            i <= ls@.len(),
            ip_views(ips@) == ps_ips(lv.take(i as int)),
            adapter_views(ads@) == ps_adapters(lv.take(i as int)),
        decreases ls@.len() - i,
    {
        proof {
            assert(lv.take(i + 1).drop_last() =~= lv.take(i as int));
            assert(lv.take(i + 1).last() == ls@[i as int]@);
        }
        let (ip, ad) = ps_line_exec(&ls[i]);
        match ip {
            Some(p) => {
                let ghost before = ip_views(ips@);
                let ghost pv = (p.0, p.1@);
                ips.push(p);
                assert(ip_views(ips@) =~= before.push(pv));
            },
            None => {},
        }
        match ad {
            Some(a) => {
                let ghost before = adapter_views(ads@);
                let ghost av = (a.0, a.1@);
                ads.push(a);
                assert(adapter_views(ads@) =~= before.push(av));
            },
            None => {},
        }
        i = i + 1;
    }
    assert(lv.take(lv.len() as int) =~= lv);
    let ghost av = adapter_views(ads@);
    let ghost ipv = ip_views(ips@);
    let mut idxs: Vec<u32> = Vec::new();
    let mut q: usize = 0;
    while q < ads.len()
        invariant
            q <= ads@.len(),
            idxs@.len() == q,
            forall|j: int| 0 <= j < q ==> idxs@[j] == (#[trigger] ads@[j]).0,
        decreases ads@.len() - q,
    {
        idxs.push(ads[q].0);
        q = q + 1;
    }
    let mut rest = ads;
    let mut out: Vec<IfaceInfo> = Vec::new();
    let ghost mut m: int = 0;
    assert(rest@ =~= rest@.skip(0));
    let ghost src = rest@;
    while rest.len() > 0
        invariant
            src.len() == idxs@.len(),
            av == adapter_views(src),
            ipv == ip_views(ips@),
            forall|j: int| 0 <= j < idxs@.len() ==> idxs@[j] == (#[trigger] src[j]).0,
            0 <= m <= src.len(),
            src.len() == m + rest@.len(),
            rest@ == src.skip(m),
            out@.len() == m,
            forall|k: int| 0 <= k < m ==> #[trigger] out@[k]@ == ps_iface_at(av, ipv, k),
        decreases rest@.len(),
    {
        let (idx, f) = rest.remove(0);
        proof {
            assert(rest@ =~= src.skip(m + 1));
            assert((idx, f) == src[m]);
        }
        let mut first = true;
        let mut j: usize = 0;
        while j < out.len()
            invariant
                out@.len() == m,
                j <= m,
                m < idxs@.len(),
                src.len() == idxs@.len(),
                forall|t: int| 0 <= t < idxs@.len() ==> idxs@[t] == (#[trigger] src[t]).0,
                idx == src[m].0,
                first == (forall|t: int| 0 <= t < j ==> (#[trigger] src[t]).0 != idx),
            decreases m - j,
        {
            assert(idxs@[j as int] == src[j as int].0);
            if idxs[j] == idx {
                first = false;
            }
            assert(first == (forall|t: int| 0 <= t < j + 1 ==> (#[trigger] src[t]).0 != idx)) by {
                if first {
                    assert forall|t: int| 0 <= t < j + 1 implies (#[trigger] src[t]).0 != idx by {
                        if t == j {
                        }
                    }
                }
            }
            j = j + 1;
        }
        let addresses = if first {
            addresses_of(&ips, idx)
        } else {
            Vec::new()
        };
        let g = IfaceInfo {
            name: f.name,
            description: f.description,
            mac: f.mac,
            addresses,
            up: f.up,
            running: f.running,
            loopback: f.loopback,
            wireless: f.wireless,
        };
        proof {
            assert(av[m] == (idx, src[m].1@));
            assert(first == first_of_index(av, m)) by {
                if first {
                    assert forall|t: int| 0 <= t < m implies (#[trigger] av[t]).0 != av[m].0 by {
                        assert(av[t].0 == src[t].0);
                    }
                } else {
                    let t = choose|t: int| 0 <= t < m && (#[trigger] src[t]).0 == idx;
                    assert(av[t].0 == src[t].0);
                }
            }
            if !first {
                assert(g@.addresses =~= Seq::<Seq<char>>::empty());
            }
            assert(g@ == ps_iface_at(av, ipv, m));
        }
        out.push(g);
        proof {
            m = m + 1;
        }
    }
    assert(iface_views(out@) =~= ps_ifaces(stdout@));
    sort_ifaces(out)
}

// ---------------------------------------------------------------------------
// MAC addresses for libpcap devices, and address prefixes
// ---------------------------------------------------------------------------

/// The (GUID, MAC) pair of a `guid|mac` line of the PowerShell adapter
/// listing: the GUID trimmed and upper-cased, the MAC as in
/// [`ps_mac`]'s form; none unless the GUID is not empty and the MAC has
/// five colons.
pub open spec fn mac_line(raw: Seq<char>) -> Option<(Seq<char>, Seq<char>)> {
    let parts = split_on(trim_ws(raw), '|');
    if parts.len() < 2 {
        None
    } else {
        let guid = uppercase(trim_ws(parts[0]));
        let mac = uppercase(replace_char(trim_ws(parts[1]), '-', ':'));
        if guid.len() != 0 && count_char(mac, ':') == 5 {
            Some((guid, mac))
        } else {
            None
        }
    }
}

/// The (GUID, MAC) pairs of the listing's lines, in order.
pub open spec fn mac_lines(lines: Seq<Seq<char>>) -> Seq<(Seq<char>, Seq<char>)>
    decreases lines.len(),
{
    if lines.len() == 0 {
        Seq::empty()
    } else {
        match mac_line(lines.last()) {
            Some(p) => mac_lines(lines.drop_last()).push(p),
            None => mac_lines(lines.drop_last()),
        }
    }
}

/// The views of (key, value) string pairs.
pub open spec fn text_pairs(v: Seq<(String, String)>) -> Seq<(Seq<char>, Seq<char>)> {
    v.map_values(|p: (String, String)| (p.0@, p.1@))
}

fn mac_line_exec(raw: &[char]) -> (r: Option<(String, String)>)
    ensures
        match r {
            Some(p) => mac_line(raw@) == Some((p.0@, p.1@)),
            None => mac_line(raw@) is None,
        },
{
    let line = trim_chars(raw);
    let parts = split_chars(&line, '|');
    if parts.len() < 2 {
        return None;
    }
    let g = trimmed_text(&parts[0]);
    let guid = to_upper(g.as_str());
    let mt = trim_chars(&parts[1]);
    let mr = replace_chars(&mt, '-', ':');
    let ms = string_from(&mr);
    let mac = to_upper(ms.as_str());
    let mc = chars_of(mac.as_str());
    let gc = chars_of(guid.as_str());
    if gc.len() != 0 && count_chars(&mc, ':') == 5 {
        Some((guid, mac))
    } else {
        None
    }
}

/// Reads the (GUID, MAC) pairs of the PowerShell adapter listing.
pub fn parse_mac_table(stdout: &str) -> (r: Vec<(String, String)>)
    ensures
        text_pairs(r@) == mac_lines(lines_of(stdout@)),
{
    let chars = chars_of(stdout);
    let ls = lines_chars(&chars);
    let ghost lv = lines_of(stdout@);
    let mut out: Vec<(String, String)> = Vec::new();
    let mut i: usize = 0;
    assert(lv.take(0) =~= Seq::<Seq<char>>::empty());
    while i < ls.len()
        invariant
            lv == lines_of(stdout@),
            ls@.len() == lv.len(),
            forall|k: int| 0 <= k < ls@.len() ==> #[trigger] ls@[k]@ == lv[k],
            i <= ls@.len(),
            text_pairs(out@) == mac_lines(lv.take(i as int)),
        decreases ls@.len() - i,
    {
        proof {
            assert(lv.take(i + 1).drop_last() =~= lv.take(i as int));
            assert(lv.take(i + 1).last() == ls@[i as int]@);
        }
        match mac_line_exec(&ls[i]) {
            Some(p) => {
                let ghost before = text_pairs(out@);
                let ghost pv = (p.0@, p.1@);
                out.push(p);
                assert(text_pairs(out@) =~= before.push(pv));
            },
            None => {},
        }
        i = i + 1;
    }
    assert(lv.take(lv.len() as int) =~= lv);
    out
}

/// The (name, MAC) entry of an interface from its sysfs `address` file:
/// the MAC trimmed and upper-cased; none when it is blank.
pub fn sysfs_mac_entry(name: String, content: &str) -> (r: Option<(String, String)>)
    ensures
        match r {
            Some(p) => p.0@ == name@ && sysfs_mac(Some(content@)) == Some(p.1@),
            None => sysfs_mac(Some(content@)) is None,
        },
{
    let c = chars_of(content);
    let t = trim_chars(&c);
    if t.len() == 0 {
        None
    } else {
        let ts = string_from(&t);
        Some((name, to_upper(ts.as_str())))
    }
}

/// The value recorded last for a key (later entries win, as in a map).
pub open spec fn value_for(pairs: Seq<(Seq<char>, Seq<char>)>, key: Seq<char>) -> Option<Seq<char>>
    decreases pairs.len(),
{
    if pairs.len() == 0 {
        None
    } else if pairs.last().0 == key {
        Some(pairs.last().1)
    } else {
        value_for(pairs.drop_last(), key)
    }
}

fn lookup_text(table: &[(String, String)], key: &str) -> (r: Option<String>)
    ensures
        opt_text(r) == value_for(text_pairs(table@), key@),
{
    let ghost tv = text_pairs(table@);
    let mut j: usize = table.len();
    assert(tv.take(j as int) =~= tv);
    while j > 0
        invariant
            tv == text_pairs(table@),
            j <= table@.len(),
            value_for(tv, key@) == value_for(tv.take(j as int), key@),
        decreases j,
    {
        assert(tv.take(j as int).drop_last() =~= tv.take(j - 1));
        assert(tv.take(j as int).last() == (table@[j - 1].0@, table@[j - 1].1@));
        if str_eq(table[j - 1].0.as_str(), key) {
            return Some(table[j - 1].1.clone());
        }
        j = j - 1;
    }
    None
}

/// The MAC address of a libpcap device: the one recorded for its GUID key,
/// otherwise the one recorded for its name.
pub fn mac_for_device(table: &[(String, String)], name: &str) -> (r: Option<String>)
    ensures
        opt_text(r) == match value_for(text_pairs(table@), guid_key_view(name@)) {
            Some(m) => Some(m),
            None => value_for(text_pairs(table@), name@),
        },
{
    let key = guid_key(name);
    match lookup_text(table, key.as_str()) {
        Some(m) => Some(m),
        None => lookup_text(table, name),
    }
}

/// The number of set bits of a byte.
pub open spec fn byte_ones(b: u8) -> nat
    decreases b,
{
    if b == 0 {
        0
    } else {
        byte_ones(b / 2) + (b % 2) as nat
    }
}

/// The number of set bits of a netmask (its prefix length).
pub open spec fn mask_ones(mask: Seq<u8>) -> nat
    decreases mask.len(),
{
    if mask.len() == 0 {
        0
    } else {
        mask_ones(mask.drop_last()) + byte_ones(mask.last())
    }
}

proof fn lemma_byte_ones_half(b: u8)
    ensures
        byte_ones(b) <= 8,
        b < 128 ==> byte_ones(b) <= 7,
        b < 64 ==> byte_ones(b) <= 6,
        b < 32 ==> byte_ones(b) <= 5,
        b < 16 ==> byte_ones(b) <= 4,
        b < 8 ==> byte_ones(b) <= 3,
        b < 4 ==> byte_ones(b) <= 2,
        b < 2 ==> byte_ones(b) <= 1,
    decreases b,
{
    if b > 0 {
        lemma_byte_ones_half(b / 2);
    }
}

fn byte_ones_exec(b: u8) -> (n: u8)
    ensures
        n == byte_ones(b),
{
    let mut x: u8 = b;
    let mut n: u8 = 0;
    proof {
        lemma_byte_ones_half(b);
    }
    while x > 0
        invariant
            n + byte_ones(x) == byte_ones(b),
            byte_ones(b) <= 8,
        decreases x,
    {
        n = n + x % 2;
        x = x / 2;
    }
    n
}

/// The prefix length of a netmask given by its bytes (4 for IPv4, 16 for
/// IPv6): the number of set bits.
pub fn prefix_len(mask: &[u8]) -> (n: u8)
    requires
        mask@.len() <= 16,
    ensures
        n == mask_ones(mask@),
{
    let mut n: u8 = 0;
    let mut i: usize = 0;
    assert(mask@.take(0) =~= Seq::<u8>::empty());
    while i < mask.len()
        invariant
            mask@.len() <= 16,
            i <= mask@.len(),
            n == mask_ones(mask@.take(i as int)),
            n <= 8 * i,
        decreases mask@.len() - i,
    {
        assert(mask@.take(i + 1).drop_last() =~= mask@.take(i as int));
        proof {
            lemma_byte_ones_half(mask@[i as int]);
        }
        let k = byte_ones_exec(mask[i]);
        n = n + k;
        i = i + 1;
    }
    assert(mask@.take(i as int) =~= mask@);
    n
}

/// An address with its prefix (`addr/len`), or the address alone without
/// a netmask.
pub fn format_address(addr: &str, mask: Option<&[u8]>) -> (s: String)
    requires
        mask matches Some(m) ==> m@.len() <= 16,
    ensures
        s@ == match mask {
            Some(m) => addr@ + "/"@ + dec(mask_ones(m@)),
            None => addr@,
        },
{
    match mask {
        Some(m) => {
            let mut v = chars_of(addr);
            push_str_chars(&mut v, "/");
            let n = prefix_len(m);
            push_dec(&mut v, n as u64);
            string_from(&v)
        },
        None => owned(addr),
    }
}

} // verus!
