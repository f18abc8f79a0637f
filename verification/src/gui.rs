//! The state the desktop front end keeps between frames, without the
//! widgets: the selected page and capture mode, the loopback capture log
//! (bounded), the live preview rows (bounded) and their display filter, and
//! the texts built from background results.

use vstd::prelude::*;
use crate::capture_engine::{CaptureEngine, CaptureLog, CaptureLogView, CaptureWorker, EngineView};
use crate::netif::{label_view, IfaceEvent, IfaceInfo, PreviewRow, PreviewView};
use crate::scanner::{entry_views, local_row_view, PortEntry, PortEntryView};
use crate::table::strs;
use crate::text::{
    chars_of, contains_sub, dec, lowercase, owned, parse_uint, parse_uint_chars, push_dec,
    push_str_chars, starts_with, str_contains, str_eq, str_starts_with, string_from, to_lower,
    trim_chars, trim_ws,
};

verus! {

/// The pages of the front end.
#[derive(Clone, Copy, PartialEq, Eq, Debug, Structural)]
pub enum Tab {
    Analyze,
    Local,
    Scan,
    Capture,
}

/// The two ways the capture page captures.
#[derive(Clone, Copy, PartialEq, Eq, Debug, Structural)]
pub enum CaptureMode {
    /// A real interface, with a BPF filter and a live preview.
    Iface,
    /// A loopback TCP listener, for watching HTTP requests.
    Loopback,
}

/// The capture mode a fresh front end starts in: the interface capture
/// when it was built with libpcap, the loopback listener otherwise.
pub fn default_capture_mode(pcap_enabled: bool) -> (m: CaptureMode)
    ensures
        m == (if pcap_enabled {
            CaptureMode::Iface
        } else {
            CaptureMode::Loopback
        }),
{
    if pcap_enabled {
        CaptureMode::Iface
    } else {
        CaptureMode::Loopback
    }
}

/// The loopback port typed by the user: the text as a port number, 8888
/// when it is not one.
pub fn capture_port_from(input: &str) -> (p: u16)
    ensures
        p == (match parse_uint(input@, 10, 65535) {
            Some(v) => v as u16,
            None => 8888,
        }),
{
    let c = chars_of(input);
    match parse_uint_chars(&c, 10, 65535) {
        Some(v) => v as u16,
        None => 8888,
    }
}

// ---------------------------------------------------------------------------
// The loopback capture log
// ---------------------------------------------------------------------------

/// The displayed line of a log entry.
pub open spec fn log_line_view(l: CaptureLogView) -> Seq<char> {
    match l {
        CaptureLogView::Status(s) => "[状态] "@ + s,
        CaptureLogView::Packet { seq, bytes, preview } => "[包#"@ + dec(seq as nat) + "] ("@ + dec(
            bytes as nat,
        ) + " 字节) "@ + preview,
        CaptureLogView::HttpRequest { seq, method, path, headers_preview } => "[HTTP请求#"@ + dec(
            seq as nat,
        ) + "] "@ + method + " "@ + path + " | "@ + headers_preview,
        CaptureLogView::HttpResponse { seq, status, headers_preview } => "[HTTP响应#"@ + dec(
            seq as nat,
        ) + "] "@ + status + " | "@ + headers_preview,
    }
}

/// Formats a log entry as a displayed line.
pub fn capture_log_line(log: &CaptureLog) -> (s: String)
    ensures
        s@ == log_line_view(log@),
{
    let mut out: Vec<char> = Vec::new();
    match log {
        CaptureLog::Status(s) => {
            push_str_chars(&mut out, "[状态] ");
            push_str_chars(&mut out, s.as_str());
        },
        CaptureLog::Packet { seq, bytes, preview } => {
            push_str_chars(&mut out, "[包#");
            push_dec(&mut out, *seq);
            push_str_chars(&mut out, "] (");
            push_dec(&mut out, *bytes as u64);
            push_str_chars(&mut out, " 字节) ");
            push_str_chars(&mut out, preview.as_str());
        },
        CaptureLog::HttpRequest { seq, method, path, headers_preview } => {
            push_str_chars(&mut out, "[HTTP请求#");
            push_dec(&mut out, *seq);
            push_str_chars(&mut out, "] ");
            push_str_chars(&mut out, method.as_str());
            push_str_chars(&mut out, " ");
            push_str_chars(&mut out, path.as_str());
            push_str_chars(&mut out, " | ");
            push_str_chars(&mut out, headers_preview.as_str());
        },
        CaptureLog::HttpResponse { seq, status, headers_preview } => {
            push_str_chars(&mut out, "[HTTP响应#");
            push_dec(&mut out, *seq);
            push_str_chars(&mut out, "] ");
            push_str_chars(&mut out, status.as_str());
            push_str_chars(&mut out, " | ");
            push_str_chars(&mut out, headers_preview.as_str());
        },
    }
    assert(out@ =~= log_line_view(log@));
    string_from(&out)
}

/// The log lines kept after one more line was added: once there are more
/// than 500, the oldest 100 are dropped.
pub open spec fn pruned(lines: Seq<Seq<char>>) -> Seq<Seq<char>> {
    if lines.len() > 500 {
        lines.skip(100)
    } else {
        lines
    }
}

/// The loopback capture log: the displayed lines and the number of HTTP
/// requests seen.
pub struct CaptureLogBook {
    lines: Vec<String>,
    http_count: u64,
}

/// The lines and the HTTP request count of a log book.
pub struct LogBookView {
    pub lines: Seq<Seq<char>>,
    pub http_count: u64,
}

impl View for CaptureLogBook {
    type V = LogBookView;

    closed spec fn view(&self) -> LogBookView {
        LogBookView { lines: strs(self.lines@), http_count: self.http_count }
    }
}

impl CaptureLogBook {
    /// An empty log.
    pub fn new() -> (b: CaptureLogBook)
        ensures
            b@ == (LogBookView { lines: Seq::empty(), http_count: 0 }),
    {
        let b = CaptureLogBook { lines: Vec::new(), http_count: 0 };
        assert(b@.lines =~= Seq::<Seq<char>>::empty());
        b
    }

    /// The displayed lines, oldest first.
    pub fn lines(&self) -> (l: &Vec<String>)
        ensures
            strs(l@) == self@.lines,
    {
        &self.lines
    }

    /// The number of HTTP requests seen.
    pub fn http_count(&self) -> (n: u64)
        ensures
            n == self@.http_count,
    {
        self.http_count
    }

    /// Adds the line of a log entry (dropping the oldest 100 lines once
    /// there are more than 500) and counts HTTP requests.
    pub fn push(&mut self, log: &CaptureLog)
        requires
            log is HttpRequest ==> old(self)@.http_count < u64::MAX,
        ensures
            final(self)@.lines == pruned(old(self)@.lines.push(log_line_view(log@))),
            final(self)@.http_count == old(self)@.http_count + if log is HttpRequest {
                1int
            } else {
                0int
            },
    {
        let line = capture_log_line(log);
        if let CaptureLog::HttpRequest { .. } = log {
            self.http_count = self.http_count + 1;
        }
        let ghost before = strs(self.lines@);
        self.lines.push(line);
        assert(strs(self.lines@) =~= before.push(log_line_view(log@)));
        if self.lines.len() > 500 {
            let mut kept: Vec<String> = Vec::new();
            let mut i: usize = 100;
            let ghost all = strs(self.lines@);
            while i < self.lines.len()
                invariant
                    100 <= i <= self.lines@.len(),
                    all == strs(self.lines@),
                    all.len() > 500,
                    strs(kept@) == all.subrange(100, i as int),
                decreases self.lines@.len() - i,
            {
                let ghost kb = strs(kept@);
                kept.push(self.lines[i].clone());
                assert(strs(kept@) =~= kb.push(all[i as int]));
                assert(all.subrange(100, i + 1) =~= all.subrange(100, i as int).push(all[i as int]));
                i = i + 1;
            }
            assert(all.subrange(100, all.len() as int) =~= all.skip(100));
            self.lines = kept;
        }
    }
}

/// A log book never holds more than 500 lines, and the line just added is
/// the last one.
pub proof fn lemma_log_book_bounded(lines: Seq<Seq<char>>, line: Seq<char>)
    requires
        lines.len() <= 500,
    ensures
        pruned(lines.push(line)).len() <= 500,
        pruned(lines.push(line)).last() == line,
{
}

/// How a log line is coloured: by the kind of entry it shows.
#[derive(Clone, Copy, PartialEq, Eq, Debug, Structural)]
pub enum LineKind {
    Request,
    Response,
    Status,
    Other,
}

/// The kind of a displayed log line, found by the text it contains.
pub open spec fn line_kind_view(line: Seq<char>) -> LineKind {
    if contains_sub(line, "HTTP请求"@) {
        LineKind::Request
    } else if contains_sub(line, "HTTP响应"@) {
        LineKind::Response
    } else if contains_sub(line, "[状态]"@) {
        LineKind::Status
    } else {
        LineKind::Other
    }
}

/// The kind of a displayed log line.
pub fn line_kind(line: &str) -> (k: LineKind)
    ensures
        k == line_kind_view(line@),
{
    if str_contains(line, "HTTP请求") {
        LineKind::Request
    } else if str_contains(line, "HTTP响应") {
        LineKind::Response
    } else if str_contains(line, "[状态]") {
        LineKind::Status
    } else {
        LineKind::Other
    }
}

// ---------------------------------------------------------------------------
// Bounded buffers and the live preview
// ---------------------------------------------------------------------------

/// The last `max` elements (all of them when there are fewer).
pub open spec fn keep_last<A>(s: Seq<A>, max: nat) -> Seq<A> {
    if s.len() > max {
        s.skip(s.len() - max)
    } else {
        s
    }
}

/// Appends an item and drops the oldest ones beyond `max`.
pub fn push_bounded<T>(buf: &mut Vec<T>, item: T, max: usize)
    ensures
        final(buf)@ == keep_last(old(buf)@.push(item), max as nat),
{
    let ghost all = old(buf)@.push(item);
    buf.push(item);
    let ghost mut dropped: int = 0;
    while buf.len() > max
        invariant
            0 <= dropped <= all.len(),
            buf@ == all.skip(dropped),
            dropped > 0 ==> all.len() - dropped >= max,
        decreases buf@.len(),
    {
        let ghost before = buf@;
        buf.remove(0);
        proof {
            assert(buf@ =~= all.skip(dropped + 1));
            dropped = dropped + 1;
        }
    }
    proof {
        if all.len() > max {
            assert(dropped == all.len() - max);
        } else {
            assert(dropped == 0);
            assert(all.skip(0) =~= all);
        }
    }
}

/// A bounded buffer never exceeds its bound, and the item just added is its
/// last element.
pub proof fn lemma_keep_last<A>(s: Seq<A>, item: A, max: nat)
    requires
        max >= 1,
    ensures
        keep_last(s.push(item), max).len() <= max,
        keep_last(s.push(item), max).last() == item,
{
}

/// The text a preview row is searched in: source, destination, protocol
/// and summary separated by spaces, lower-cased.
pub open spec fn row_haystack(r: PreviewView) -> Seq<char> {
    lowercase(r.src + " "@ + r.dst + " "@ + r.protocol + " "@ + r.summary)
}

/// A preview row passes the display filter: the filter, trimmed and
/// lower-cased, is empty or occurs in the row's text.
pub open spec fn row_shown(r: PreviewView, filter: Seq<char>) -> bool {
    let needle = lowercase(trim_ws(filter));
    needle.len() == 0 || contains_sub(row_haystack(r), needle)
}

/// The positions of the rows that pass the display filter, in order.
pub open spec fn shown_rows(rows: Seq<PreviewView>, filter: Seq<char>) -> Seq<usize>
    decreases rows.len(),
{
    if rows.len() == 0 {
        Seq::empty()
    } else if row_shown(rows.last(), filter) {
        shown_rows(rows.drop_last(), filter).push((rows.len() - 1) as usize)
    } else {
        shown_rows(rows.drop_last(), filter)
    }
}

/// The positions of the preview rows that pass the display filter.
pub fn filter_preview_rows(rows: &[PreviewRow], filter: &str) -> (r: Vec<usize>)
    ensures
        r@ == shown_rows(rows@.map_values(|x: PreviewRow| x@), filter@),
{
    let ghost vs = rows@.map_values(|x: PreviewRow| x@);
    let fc = chars_of(filter);
    let ft = trim_chars(&fc);
    let fts = string_from(&ft);
    let needle = to_lower(fts.as_str());
    let empty = needle.as_str().is_empty();
    proof {
        if empty {
        }
    }
    let mut r: Vec<usize> = Vec::new();
    let mut i: usize = 0;
    assert(vs.take(0) =~= Seq::<PreviewView>::empty());
    while i < rows.len()
        invariant
            vs == rows@.map_values(|x: PreviewRow| x@),
            needle@ == lowercase(trim_ws(filter@)),
            empty == (needle@.len() == 0),
            i <= rows@.len(),
            r@ == shown_rows(vs.take(i as int), filter@),
        decreases rows@.len() - i,
    {
        let row = &rows[i];
        let keep = if empty {
            true
        } else {
            let mut hay = chars_of(row.src.as_str());
            push_str_chars(&mut hay, " ");
            push_str_chars(&mut hay, row.dst.as_str());
            push_str_chars(&mut hay, " ");
            push_str_chars(&mut hay, row.protocol.as_str());
            push_str_chars(&mut hay, " ");
            push_str_chars(&mut hay, row.summary.as_str());
            let hs = string_from(&hay);
            let low = to_lower(hs.as_str());
            proof {
                assert(hay@ =~= row@.src + " "@ + row@.dst + " "@ + row@.protocol + " "@ + row@.summary);
            }
            str_contains(low.as_str(), needle.as_str())
        };
        proof {
            assert(vs.take(i + 1).drop_last() =~= vs.take(i as int));
            assert(vs.take(i + 1).last() == row@);
            assert(keep == row_shown(row@, filter@));
        }
        if keep {
            r.push(i);
        }
        i = i + 1;
    }
    assert(vs.take(rows@.len() as int) =~= vs);
    r
}

// ---------------------------------------------------------------------------
// Texts from background results
// ---------------------------------------------------------------------------

/// The summary of a remote scan: one `开放 <port> <service>` line per open
/// port, or `未发现开放端口` when none is open.
pub open spec fn open_lines(list: Seq<(u16, Seq<char>, bool)>) -> Seq<char>
    decreases list.len(),
{
    if list.len() == 0 {
        Seq::empty()
    } else {
        let (port, service, open) = list.last();
        if open {
            open_lines(list.drop_last()) + "开放 "@ + dec(port as nat) + " "@ + service + "\n"@
        } else {
            open_lines(list.drop_last())
        }
    }
}

/// The text shown after a remote scan.
pub open spec fn scan_summary_view(list: Seq<(u16, Seq<char>, bool)>) -> Seq<char> {
    let out = open_lines(list);
    if out.len() == 0 {
        "未发现开放端口"@
    } else {
        out
    }
}

/// The view of a list of (port, service, open) results.
pub open spec fn triples_view(v: Seq<(u16, String, bool)>) -> Seq<(u16, Seq<char>, bool)> {
    v.map_values(|t: (u16, String, bool)| (t.0, t.1@, t.2))
}

/// Builds the text shown after a remote scan.
pub fn scan_summary(list: &[(u16, String, bool)]) -> (s: String)
    ensures
        s@ == scan_summary_view(triples_view(list@)),
{
    let ghost tv = triples_view(list@);
    let mut out: Vec<char> = Vec::new();
    let mut i: usize = 0;
    assert(tv.take(0) =~= Seq::<(u16, Seq<char>, bool)>::empty());
    while i < list.len()
        invariant
            tv == triples_view(list@),
            i <= list@.len(),
            out@ == open_lines(tv.take(i as int)),
        decreases list@.len() - i,
    {
        let (port, service, open) = &list[i];
        proof {
            assert(tv.take(i + 1).drop_last() =~= tv.take(i as int));
            assert(tv.take(i + 1).last() == (*port, service@, *open));
        }
        if *open {
            push_str_chars(&mut out, "开放 ");
            push_dec(&mut out, *port as u64);
            push_str_chars(&mut out, " ");
            push_str_chars(&mut out, service.as_str());
            push_str_chars(&mut out, "\n");
        }
        i = i + 1;
    }
    assert(tv.take(list@.len() as int) =~= tv);
    if out.len() == 0 {
        owned("未发现开放端口")
    } else {
        string_from(&out)
    }
}

/// The rows of the local page: the first 50 `LISTEN` entries.
pub open spec fn listen_rows(es: Seq<PortEntryView>) -> Seq<Seq<Seq<char>>>
    decreases es.len(),
{
    if es.len() == 0 {
        Seq::empty()
    } else {
        let acc = listen_rows(es.drop_last());
        if es.last().state == "LISTEN"@ && acc.len() < 50 {
            acc.push(local_row_view(es.last()))
        } else {
            acc
        }
    }
}

/// Builds the rows of the local page.
pub fn listening_rows(entries: &[PortEntry]) -> (rows: Vec<Vec<String>>)
    ensures
        rows@.map_values(|r: Vec<String>| strs(r@)) == listen_rows(entry_views(entries@)),
{
    let ghost es = entry_views(entries@);
    let mut rows: Vec<Vec<String>> = Vec::new();
    let mut i: usize = 0;
    assert(es.take(0) =~= Seq::<PortEntryView>::empty());
    while i < entries.len()
        invariant
            es == entry_views(entries@),
            i <= entries@.len(),
            rows@.map_values(|r: Vec<String>| strs(r@)) == listen_rows(es.take(i as int)),
        decreases entries@.len() - i,
    {
        let e = &entries[i];
        proof {
            assert(es.take(i + 1).drop_last() =~= es.take(i as int));
            assert(es.take(i + 1).last() == e@);
        }
        if str_eq(e.state.as_str(), "LISTEN") && rows.len() < 50 {
            let ghost before = rows@.map_values(|r: Vec<String>| strs(r@));
            let row = crate::scanner::local_row(e);
            rows.push(row);
            assert(rows@.map_values(|r: Vec<String>| strs(r@)) =~= before.push(local_row_view(e@)));
        }
        i = i + 1;
    }
    assert(es.take(entries@.len() as int) =~= es);
    rows
}

/// A status message from the capture worker reports an error when it
/// starts with `抓包出错`.
pub fn is_capture_error(msg: &str) -> (r: bool)
    ensures
        r == starts_with(msg@, "抓包出错"@),
{
    str_starts_with(msg, "抓包出错")
}

// ---------------------------------------------------------------------------
// The interface capture page
// ---------------------------------------------------------------------------

/// What the interface capture page shows: the latest preview rows (at most
/// 2000), the status line, the last capture error, and whether a capture
/// runs.
pub struct IfacePreview {
    pub rows: Vec<PreviewRow>,
    pub status: String,
    pub error: Option<String>,
    pub running: bool,
}

/// The characters of each text field of an [`IfacePreview`].
pub struct IfacePreviewView {
    pub rows: Seq<PreviewView>,
    pub status: Seq<char>,
    pub error: Option<Seq<char>>,
    pub running: bool,
}

impl View for IfacePreview {
    type V = IfacePreviewView;

    open spec fn view(&self) -> IfacePreviewView {
        IfacePreviewView {
            rows: self.rows@.map_values(|r: PreviewRow| r@),
            status: self.status@,
            error: match self.error {
                Some(e) => Some(e@),
                None => None,
            },
            running: self.running,
        }
    }
}

impl IfacePreview {
    /// No rows, no status, no error, not running.
    pub fn new() -> (p: IfacePreview)
        ensures
            p@ == (IfacePreviewView { rows: Seq::empty(), status: Seq::empty(), error: None, running: false }),
    {
        let p = IfacePreview { rows: Vec::new(), status: String::new(), error: None, running: false };
        assert(p@.rows =~= Seq::<PreviewView>::empty());
        p
    }

    /// A capture was started: running, no error, no rows, status `启动中…`.
    pub fn started(&mut self)
        ensures
            final(self)@ == (IfacePreviewView {
                rows: Seq::empty(),
                status: "启动中…"@,
                error: None,
                running: true,
            }),
    {
        self.rows = Vec::new();
        self.status = owned("启动中…");
        self.error = None;
        self.running = true;
        assert(self@.rows =~= Seq::<PreviewView>::empty());
    }

    /// The capture was stopped by the user: not running, status `已停止`;
    /// rows and error kept.
    pub fn stopped(&mut self)
        ensures
            final(self)@ == (IfacePreviewView { status: "已停止"@, running: false, ..old(self)@ }),
    {
        self.status = owned("已停止");
        self.running = false;
    }

    /// The worker went away: not running; everything else kept.
    pub fn disconnected(&mut self)
        ensures
            final(self)@ == (IfacePreviewView { running: false, ..old(self)@ }),
    {
        self.running = false;
    }

    /// Takes in one event of the worker.  A status message becomes the
    /// status line, and also the error when it reports a capture error; a
    /// packet row is appended, the oldest rows dropped beyond 2000.
    pub fn apply(&mut self, ev: IfaceEvent)
        ensures
            match ev {
                IfaceEvent::Status(msg) => final(self)@ == (IfacePreviewView {
                    status: msg@,
                    error: if starts_with(msg@, "抓包出错"@) {
                        Some(msg@)
                    } else {
                        old(self)@.error
                    },
                    ..old(self)@
                }),
                IfaceEvent::Packet(row) => final(self)@ == (IfacePreviewView {
                    rows: keep_last(old(self)@.rows.push(row@), 2000),
                    ..old(self)@
                }),
            },
    {
        match ev {
            IfaceEvent::Status(msg) => {
                if is_capture_error(msg.as_str()) {
                    self.error = Some(msg.clone());
                }
                self.status = msg;
            },
            IfaceEvent::Packet(row) => {
                let ghost before = self.rows@;
                let ghost rv = row@;
                push_bounded(&mut self.rows, row, 2000);
                proof {
                    let all = before.push(row);
                    assert(all.map_values(|r: PreviewRow| r@) =~= before.map_values(|r: PreviewRow| r@).push(rv));
                    if all.len() > 2000 {
                        assert(self.rows@.map_values(|r: PreviewRow| r@) =~= keep_last(
                            before.map_values(|r: PreviewRow| r@).push(rv),
                            2000,
                        ));
                    }
                }
            },
        }
    }
}

/// Why an interface capture cannot start.
#[derive(Clone, Copy, PartialEq, Eq, Debug, Structural)]
pub enum StartRefusal {
    /// No interface is selected (`请先选择一块网卡`).
    NoInterface,
    /// Saving was asked for without a path (`请填写抓包文件的保存路径`).
    NoSavePath,
}

/// What an interface capture is started with: the selected interface's
/// name and, when saving, the trimmed save path; or why it cannot start.
pub open spec fn capture_request_view(
    ifaces: Seq<IfaceInfo>,
    selected: int,
    save: bool,
    save_path: Seq<char>,
) -> Result<(Seq<char>, Option<Seq<char>>), StartRefusal> {
    if !(0 <= selected < ifaces.len()) {
        Err(StartRefusal::NoInterface)
    } else if save && trim_ws(save_path).len() == 0 {
        Err(StartRefusal::NoSavePath)
    } else {
        Ok(
            (
                ifaces[selected].name@,
                if save {
                    Some(trim_ws(save_path))
                } else {
                    None
                },
            ),
        )
    }
}

/// Checks what an interface capture would start with.
pub fn iface_capture_request(ifaces: &[IfaceInfo], selected: usize, save: bool, save_path: &str) -> (r: Result<
    (String, Option<String>),
    StartRefusal,
>)
    ensures
        match (r, capture_request_view(ifaces@, selected as int, save, save_path@)) {
            (Ok((name, path)), Ok((n, p))) => name@ == n && match (path, p) {
                (Some(a), Some(b)) => a@ == b,
                (None, None) => true,
                _ => false,
            },
            (Err(e), Err(f)) => e == f,
            _ => false,
        },
{
    if selected >= ifaces.len() {
        return Err(StartRefusal::NoInterface);
    }
    let name = ifaces[selected].name.clone();
    if save {
        let c = chars_of(save_path);
        let t = trim_chars(&c);
        if t.len() == 0 {
            return Err(StartRefusal::NoSavePath);
        }
        Ok((name, Some(string_from(&t))))
    } else {
        Ok((name, None))
    }
}

// ---------------------------------------------------------------------------
// The loopback capture page and list views
// ---------------------------------------------------------------------------

/// The loopback capture page: its engine, its log and whether capturing is
/// switched on.
pub struct LoopbackPage {
    pub engine: CaptureEngine,
    pub book: CaptureLogBook,
    pub enabled: bool,
}

impl LoopbackPage {
    /// Switched off, with a stopped engine for port 8888 and an empty log.
    pub fn new() -> (p: LoopbackPage)
        ensures
            p.engine@ == (EngineView { port: 8888, running: false }),
            p.book@ == (LogBookView { lines: Seq::empty(), http_count: 0 }),
            !p.enabled,
    {
        LoopbackPage { engine: CaptureEngine::new(8888), book: CaptureLogBook::new(), enabled: false }
    }

    /// The capture switch was set to `on`.  Switching on makes a fresh
    /// engine for the typed port (8888 when it is not a port), starts it,
    /// empties the log and returns the worker to run; switching off stops
    /// the engine.  Setting the switch to where it is changes nothing.
    pub fn switch(&mut self, on: bool, port_input: &str) -> (w: Option<CaptureWorker>)
        ensures
            final(self).enabled == on,
            on && !old(self).enabled ==> {
                &&& final(self).engine@ == (EngineView {
                    port: match parse_uint(port_input@, 10, 65535) {
                        Some(v) => v as u16,
                        None => 8888,
                    },
                    running: true,
                })
                &&& final(self).book@ == (LogBookView { lines: Seq::empty(), http_count: 0 })
                &&& w matches Some(wk) && wk.port == final(self).engine@.port
            },
            !on && old(self).enabled ==> {
                &&& final(self).engine@ == (EngineView { port: old(self).engine@.port, running: false })
                &&& final(self).book@ == old(self).book@
                &&& w is None
            },
            on == old(self).enabled ==> {
                &&& final(self).engine@ == old(self).engine@
                &&& final(self).book@ == old(self).book@
                &&& w is None
            },
    {
        if on && !self.enabled {
            let port = capture_port_from(port_input);
            let mut engine = CaptureEngine::new(port);
            let w = engine.start();
            self.engine = engine;
            self.book = CaptureLogBook::new();
            self.enabled = true;
            w
        } else if !on && self.enabled {
            self.engine.stop();
            self.enabled = false;
            None
        } else {
            None
        }
    }

    /// The port was applied while switched off: a fresh stopped engine for
    /// the typed port.  While capturing, nothing changes.
    pub fn apply_port(&mut self, port_input: &str)
        ensures
            final(self).enabled == old(self).enabled,
            final(self).book@ == old(self).book@,
            old(self).enabled ==> final(self).engine@ == old(self).engine@,
            !old(self).enabled ==> final(self).engine@ == (EngineView {
                port: match parse_uint(port_input@, 10, 65535) {
                    Some(v) => v as u16,
                    None => 8888,
                },
                running: false,
            }),
    {
        if !self.enabled {
            let port = capture_port_from(port_input);
            self.engine = CaptureEngine::new(port);
        }
    }
}

/// Where the shown part of a list starts when at most `max` of its `total`
/// last items are shown.
pub fn visible_start(total: usize, max: usize) -> (start: usize)
    ensures
        start == (if total > max {
            total - max
        } else {
            0
        }),
{
    if total > max {
        total - max
    } else {
        0
    }
}

/// The text shown for the selected interface: its label, or a hint when
/// nothing is selected.
pub fn selected_iface_label(ifaces: &[IfaceInfo], selected: usize) -> (s: String)
    ensures
        s@ == (if selected < ifaces@.len() {
            label_view(ifaces@[selected as int]@)
        } else {
            "(请先刷新网卡列表)"@
        }),
{
    if selected < ifaces.len() {
        ifaces[selected].label()
    } else {
        owned("(请先刷新网卡列表)")
    }
}

} // verus!
