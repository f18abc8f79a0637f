//! The loopback capture engine of the desktop front end.
//!
//! A worker listens on `127.0.0.1:<port>`; each chunk it reads is classified
//! here (HTTP request, HTTP response or raw data) into a [`CaptureLog`] that
//! travels over a channel to the front end, which polls it once per frame.
//! The engine itself is a small state machine: stopped or running, with the
//! port it was made for.

use vstd::prelude::*;
use std::sync::Arc;
use std::sync::atomic::{AtomicBool, AtomicU64};
use std::sync::mpsc::{Receiver, Sender};
use vstd::slice::slice_subrange;
use crate::parser::{http_of_text, parse_http_payload};
use crate::text::{
    chars_of, decode_lossy, is_whitespace, is_ws, join, join_chars, lines_chars, lines_of,
    owned, push_all, push_str_chars, str_eq, string_from, take_at_most, take_chars, utf8_lossy,
    views,
};

verus! {

// ---------------------------------------------------------------------------
// The channel types of std
// ---------------------------------------------------------------------------

#[verifier::external_type_specification]
#[verifier::external_body]
#[verifier::reject_recursive_types(T)]
pub struct ExReceiver<T>(Receiver<T>);

#[verifier::external_type_specification]
#[verifier::external_body]
#[verifier::reject_recursive_types(T)]
pub struct ExSender<T>(Sender<T>);

/// `std::sync::mpsc::channel`: a fresh sender and its receiver.  Nothing is
/// stated of them; they only carry values between threads.
#[verifier::external_body]
fn open_channel<T>() -> (Sender<T>, Receiver<T>) {
    std::sync::mpsc::channel()
}

/// `Receiver::try_recv`: the next value if one is waiting, `None` when the
/// channel is empty or closed.  What arrives depends on the other thread, so
/// nothing is stated of it.
#[verifier::external_body]
fn try_receive<T>(rx: &Receiver<T>) -> Option<T> {
    match rx.try_recv() {
        Ok(v) => Some(v),
        Err(_) => None,
    }
}

// ---------------------------------------------------------------------------
// Log entries
// ---------------------------------------------------------------------------

/// One entry of the capture log.
#[derive(Clone, Debug)]
pub enum CaptureLog {
    /// A status message (started, stopped, an error).
    Status(String),
    /// A chunk of data that is not HTTP.
    Packet { seq: u64, bytes: u32, preview: String },
    /// A recognised HTTP request.
    HttpRequest { seq: u64, method: String, path: String, headers_preview: String },
    /// A recognised HTTP response.
    HttpResponse { seq: u64, status: String, headers_preview: String },
}

/// The characters of each field of a [`CaptureLog`].
pub enum CaptureLogView {
    Status(Seq<char>),
    Packet { seq: u64, bytes: u32, preview: Seq<char> },
    HttpRequest { seq: u64, method: Seq<char>, path: Seq<char>, headers_preview: Seq<char> },
    HttpResponse { seq: u64, status: Seq<char>, headers_preview: Seq<char> },
}

impl View for CaptureLog {
    type V = CaptureLogView;

    open spec fn view(&self) -> CaptureLogView {
        match self {
            CaptureLog::Status(s) => CaptureLogView::Status(s@),
            CaptureLog::Packet { seq, bytes, preview } => CaptureLogView::Packet {
                seq: *seq,
                bytes: *bytes,
                preview: preview@,
            },
            CaptureLog::HttpRequest { seq, method, path, headers_preview } =>
                CaptureLogView::HttpRequest {
                seq: *seq,
                method: method@,
                path: path@,
                headers_preview: headers_preview@,
            },
            CaptureLog::HttpResponse { seq, status, headers_preview } =>
                CaptureLogView::HttpResponse {
                seq: *seq,
                status: status@,
                headers_preview: headers_preview@,
            },
        }
    }
}

// ---------------------------------------------------------------------------
// Classifying a chunk
// ---------------------------------------------------------------------------

/// The number of bytes of a character in UTF-8.
pub open spec fn char_utf8_len(c: char) -> nat {
    let u = c as u32;
    if u < 0x80 {
        1
    } else if u < 0x800 {
        2
    } else if u < 0x10000 {
        3
    } else {
        4
    }
}

/// The number of bytes of a text in UTF-8 (`str::len`).
pub open spec fn utf8_len(s: Seq<char>) -> nat
    decreases s.len(),
{
    if s.len() == 0 {
        0
    } else {
        utf8_len(s.drop_last()) + char_utf8_len(s.last())
    }
}

proof fn lemma_utf8_len_prefix(s: Seq<char>, i: int)
    requires
        0 <= i <= s.len(),
    ensures
        utf8_len(s.take(i)) <= utf8_len(s),
    decreases s.len() - i,
{
    if i < s.len() {
        lemma_utf8_len_prefix(s, i + 1);
        assert(s.take(i + 1).drop_last() =~= s.take(i));
    } else {
        assert(s.take(i) =~= s);
    }
}

/// Whether the UTF-8 length of a text exceeds `limit`.
fn utf8_len_exceeds(s: &[char], limit: usize) -> (r: bool)
    ensures
        r == (utf8_len(s@) > limit),
{
    let mut total: usize = 0;
    let mut i: usize = 0;
    while i < s.len()
        invariant
            i <= s@.len(),
            total == utf8_len(s@.take(i as int)),
            total <= limit,
        decreases s@.len() - i,
    {
        let u = s[i] as u32;
        let w: usize = if u < 0x80 {
            1
        } else if u < 0x800 {
            2
        } else if u < 0x10000 {
            3
        } else {
            4
        };
        proof {
            assert(s@.take(i + 1).drop_last() =~= s@.take(i as int));
            assert(s@.take(i + 1).last() == s@[i as int]);
        }
        if w > limit - total {
            proof {
                lemma_utf8_len_prefix(s@, i + 1);
            }
            return true;
        }
        total = total + w;
        i = i + 1;
    }
    assert(s@.take(s@.len() as int) =~= s@);
    false
}

/// The characters a raw preview keeps: whitespace, ASCII graphic characters
/// and ASCII letters.
pub open spec fn is_preview_char(c: char) -> bool {
    let u = c as u32;
    is_ws(c) || (0x21 <= u && u <= 0x7E) || (0x41 <= u && u <= 0x5A) || (0x61 <= u && u <= 0x7A)
}

/// The characters of a text that a preview may keep, in order.
pub open spec fn preview_chars(text: Seq<char>) -> Seq<char> {
    text.filter(|c: char| is_preview_char(c))
}

/// The preview of a text: the characters of [`is_preview_char`] kept, at
/// most 60 of them, and `…` after them when the text is longer than 60
/// bytes in UTF-8.
pub open spec fn preview_text_view(text: Seq<char>) -> Seq<char> {
    let kept = take_at_most(preview_chars(text), 60);
    if utf8_len(text) > 60 {
        kept + "…"@
    } else {
        kept
    }
}

/// The preview of raw data: the data decoded lossily as UTF-8, then
/// [`preview_text_view`].
pub open spec fn preview_view(data: Seq<u8>) -> Seq<char> {
    preview_text_view(utf8_lossy(data))
}

/// Builds the preview of a text (cut at a character boundary).
pub fn preview_text(text: &str) -> (s: String)
    ensures
        s@ == preview_text_view(text@),
{
    let chars = chars_of(text);
    let mut kept: Vec<char> = Vec::new();
    let mut i: usize = 0;
    while i < chars.len()
        invariant
            i <= chars@.len(),
            kept@ == chars@.take(i as int).filter(|c: char| is_preview_char(c)),
        decreases chars@.len() - i,
    {
        let c = chars[i];
        proof {
            assert(chars@.take(i + 1) =~= chars@.take(i as int).push(c));
            chars@.take(i as int).lemma_filter_push(c, |c: char| is_preview_char(c));
        }
        let u = c as u32;
        if is_whitespace(c) || (0x21 <= u && u <= 0x7E) || (0x41 <= u && u <= 0x5A) || (0x61 <= u
            && u <= 0x7A) {
            kept.push(c);
        }
        i = i + 1;
    }
    assert(chars@.take(chars@.len() as int) =~= chars@);
    let mut out = take_chars(&kept, 60);
    if utf8_len_exceeds(&chars, 60) {
        push_str_chars(&mut out, "…");
    }
    string_from(&out)
}

/// Whatever the text: the preview is its kept characters, followed by `…`
/// exactly when the text is longer than 60 bytes in UTF-8; there are at
/// most 60 kept characters, each whitespace or ASCII graphic and each
/// taken from the text, and they are the first characters of the text
/// that are kept at all, in the order the text has them.
pub proof fn lemma_preview_shape(text: Seq<char>)
    ensures
        take_at_most(preview_chars(text), 60).len() == (if preview_chars(text).len() <= 60 {
            preview_chars(text).len()
        } else {
            60
        }),
        take_at_most(preview_chars(text), 60) == preview_chars(text).take(
            take_at_most(preview_chars(text), 60).len() as int,
        ),
        forall|i: int|
            0 <= i < take_at_most(preview_chars(text), 60).len() ==> {
                let c = #[trigger] take_at_most(preview_chars(text), 60)[i];
                &&& is_ws(c) || (0x21 <= c as u32 && c as u32 <= 0x7E)
                &&& text.contains(c)
            },
        preview_text_view(text) == (if utf8_len(text) > 60 {
            take_at_most(preview_chars(text), 60) + "…"@
        } else {
            take_at_most(preview_chars(text), 60)
        }),
{
    let all = preview_chars(text);
    let kept = take_at_most(all, 60);
    if all.len() <= 60 {
        assert(all.take(all.len() as int) =~= all);
    }
    assert forall|i: int| 0 <= i < kept.len() implies {
        let c = #[trigger] kept[i];
        &&& is_ws(c) || (0x21 <= c as u32 && c as u32 <= 0x7E)
        &&& text.contains(c)
    } by {
        assert(kept[i] == all[i]);
        text.lemma_filter_pred(|c: char| is_preview_char(c), i);
        assert(all.contains(all[i]));
        text.lemma_filter_contains_rev(|c: char| is_preview_char(c), all[i]);
    }
}

/// Builds the preview of raw data.
pub fn make_preview(data: &[u8]) -> (s: String)
    ensures
        s@ == preview_view(data@),
{
    let text = decode_lossy(data);
    preview_text(text.as_str())
}

/// The header preview of a text: its first five lines joined with single
/// spaces.
pub open spec fn headers_text_view(text: Seq<char>) -> Seq<char> {
    join(take_at_most(lines_of(text), 5), " "@)
}

/// The header preview of a chunk: the first `n` bytes decoded lossily as
/// UTF-8, then [`headers_text_view`].
pub open spec fn headers_preview_view(data: Seq<u8>, n: int) -> Seq<char> {
    headers_text_view(utf8_lossy(data.take(n)))
}

/// Builds the header preview of a text.
pub fn headers_text(text: &str) -> (s: String)
    ensures
        s@ == headers_text_view(text@),
{
    let chars = chars_of(text);
    let ls = lines_chars(&chars);
    let ghost all = lines_of(chars@);
    let mut parts: Vec<Vec<char>> = Vec::new();
    let mut i: usize = 0;
    while i < ls.len() && i < 5
        invariant
            ls@.len() == all.len(),
            forall|k: int| 0 <= k < ls@.len() ==> #[trigger] ls@[k]@ == all[k],
            i <= ls@.len(),
            i <= 5,
            views(parts@) == all.take(i as int),
        decreases ls@.len() - i,
    {
        let line = &ls[i];
        let copy = string_from(line.as_slice());
        let v = chars_of(copy.as_str());
        let ghost before = views(parts@);
        parts.push(v);
        proof {
            assert(views(parts@) =~= before.push(all[i as int]));
            assert(all.take(i + 1) =~= all.take(i as int).push(all[i as int]));
        }
        i = i + 1;
    }
    proof {
        if all.len() <= 5 {
            assert(all.take(i as int) =~= all);
        }
    }
    let sep = chars_of(" ");
    let joined = join_chars(&parts, &sep);
    string_from(&joined)
}

/// Builds the header preview of the first `n` bytes of a chunk.
pub fn extract_headers_preview(data: &[u8], n: usize) -> (s: String)
    requires
        n <= data@.len(),
    ensures
        s@ == headers_preview_view(data@, n as int),
{
    let head = slice_subrange(data, 0, n);
    assert(head@ =~= data@.take(n as int));
    let text = decode_lossy(head);
    headers_text(text.as_str())
}

/// The log entry for one chunk read from a connection, numbered `seq`:
/// an HTTP response or request when the decoded chunk is HTTP (a response
/// without a status shows `???`), otherwise the raw chunk with its length
/// (as a `u32`) and preview.
pub open spec fn chunk_log_view(seq: u64, data: Seq<u8>) -> CaptureLogView {
    match http_of_text(utf8_lossy(data)) {
        Some(h) => if h.method == "RESPONSE"@ {
            CaptureLogView::HttpResponse {
                seq,
                status: match h.status {
                    Some(s) => s,
                    None => "???"@,
                },
                headers_preview: headers_preview_view(data, data.len() as int),
            }
        } else {
            CaptureLogView::HttpRequest {
                seq,
                method: h.method,
                path: h.path,
                headers_preview: headers_preview_view(data, data.len() as int),
            }
        },
        None => CaptureLogView::Packet {
            seq,
            bytes: data.len() as u32,
            preview: preview_view(data),
        },
    }
}

/// Classifies one chunk read from a connection.
pub fn chunk_log(seq: u64, data: &[u8]) -> (log: CaptureLog)
    ensures
        log@ == chunk_log_view(seq, data@),
{
    let text = decode_lossy(data);
    match parse_http_payload(text.as_str()) {
        Some(h) => {
            let headers = extract_headers_preview(data, data.len());
            if str_eq(h.method.as_str(), "RESPONSE") {
                let status = match h.status {
                    Some(s) => s,
                    None => owned("???"),
                };
                CaptureLog::HttpResponse { seq, status, headers_preview: headers }
            } else {
                CaptureLog::HttpRequest {
                    seq,
                    method: h.method,
                    path: h.path,
                    headers_preview: headers,
                }
            }
        },
        None => {
            let preview = make_preview(data);
            CaptureLog::Packet { seq, bytes: data.len() as u32, preview }
        },
    }
}

// ---------------------------------------------------------------------------
// The engine
// ---------------------------------------------------------------------------

/// The flags a running engine shares with its worker: a stop request and
/// the number of chunks captured.
#[derive(Clone)]
pub struct CaptureHandle {
    stop: Arc<AtomicBool>,
    pub counter: Arc<AtomicU64>,
}

impl CaptureHandle {
    /// Whether a stop was requested.  The flag is shared between threads,
    /// so nothing is stated of its value.
    pub fn stop_requested(&self) -> bool {
        self.stop.load(std::sync::atomic::Ordering::SeqCst)
    }

    /// Requests the worker to stop.
    pub fn request_stop(&self) {
        self.stop.store(true, std::sync::atomic::Ordering::SeqCst);
    }

    /// The number of chunks captured so far (shared between threads).
    pub fn count(&self) -> u64 {
        self.counter.load(std::sync::atomic::Ordering::SeqCst)
    }

    /// Counts one more chunk and classifies it under its number, which is
    /// the count after the increment.
    pub fn record_chunk(&self, data: &[u8]) -> (log: CaptureLog)
        ensures
            exists|seq: u64| log@ == chunk_log_view(seq, data@),
    {
        let prev = self.counter.fetch_add(1, std::sync::atomic::Ordering::SeqCst);
        let seq = prev.wrapping_add(1);
        chunk_log(seq, data)
    }
}

/// What a started engine hands to the worker that listens: the port, the
/// shared flags and the sending end of the log channel.
pub struct CaptureWorker {
    pub port: u16,
    pub handle: CaptureHandle,
    pub sender: Sender<CaptureLog>,
}

/// The capture engine: non-blocking, polled by the front end.
pub struct CaptureEngine {
    handle: Option<CaptureHandle>,
    rx: Option<Receiver<CaptureLog>>,
    port: u16,
}

/// The state of an engine: its port and whether it is running.
pub struct EngineView {
    pub port: u16,
    pub running: bool,
}

impl View for CaptureEngine {
    type V = EngineView;

    closed spec fn view(&self) -> EngineView {
        EngineView { port: self.port, running: self.handle is Some }
    }
}

/// The state after a stop: same port, not running.
pub open spec fn stopped(v: EngineView) -> EngineView {
    EngineView { port: v.port, running: false }
}

/// The state after a start: same port, running.
pub open spec fn started(v: EngineView) -> EngineView {
    EngineView { port: v.port, running: true }
}

impl CaptureEngine {
    /// A running engine has both its flags and its receiver.
    #[verifier::type_invariant]
    closed spec fn inv(self) -> bool {
        self.handle is Some == self.rx is Some
    }

    /// A stopped engine for `port`.
    pub fn new(port: u16) -> (e: CaptureEngine)
        ensures
            e@ == (EngineView { port, running: false }),
    {
        CaptureEngine { handle: None, rx: None, port }
    }

    /// The port the engine listens on.
    pub fn port(&self) -> (p: u16)
        ensures
            p == self@.port,
    {
        self.port
    }

    /// Starts the engine.  A running engine is left as it is (same flags,
    /// same channel) and `None` is
    /// returned; otherwise the engine becomes running and the worker that
    /// must listen for it is returned.
    pub fn start(&mut self) -> (w: Option<CaptureWorker>)
        ensures
            final(self)@ == started(old(self)@),
            old(self)@.running ==> *final(self) == *old(self),
            old(self)@.running ==> w is None,
            !old(self)@.running ==> (w matches Some(wk) && wk.port == old(self)@.port),
    {
        if self.handle.is_some() {
            return None;
        }
        let stop = Arc::new(AtomicBool::new(false));
        let counter = Arc::new(AtomicU64::new(0));
        let (tx, rx) = open_channel();
        let handle = CaptureHandle { stop, counter };
        let shared = handle.clone();
        let port = self.port;
        *self = CaptureEngine { handle: Some(handle), rx: Some(rx), port };
        Some(CaptureWorker { port, handle: shared, sender: tx })
    }

    /// Stops the engine without blocking: the worker is asked to stop and
    /// the receiver is dropped.
    pub fn stop(&mut self)
        ensures
            final(self)@ == stopped(old(self)@),
    {
        if let Some(h) = &self.handle {
            h.request_stop();
        }
        let port = self.port;
        *self = CaptureEngine { handle: None, rx: None, port };
    }

    /// The next log entry, if one is waiting.  A stopped engine has none.
    pub fn poll(&mut self) -> (r: Option<CaptureLog>)
        ensures
            final(self)@ == old(self)@,
            !old(self)@.running ==> r is None,
    {
        proof {
            use_type_invariant(&*self);
        }
        match &self.rx {
            Some(rx) => try_receive(rx),
            None => None,
        }
    }

    /// The number of chunks captured; 0 for a stopped engine.
    pub fn captured_count(&self) -> (n: u64)
        ensures
            !self@.running ==> n == 0,
    {
        match &self.handle {
            Some(h) => h.count(),
            None => 0,
        }
    }
}

impl Default for CaptureEngine {
    /// A stopped engine for port 8888.
    fn default() -> (e: CaptureEngine)
        ensures
            e@ == (EngineView { port: 8888, running: false }),
    {
        CaptureEngine::new(8888)
    }
}

/// Stopping an engine keeps its port, leaves it stopped, and a second stop
/// changes nothing; starting a stopped engine makes it run on the same port.
pub proof fn lemma_engine_transitions(v: EngineView)
    ensures
        stopped(v).port == v.port,
        !stopped(v).running,
        stopped(stopped(v)) == stopped(v),
        started(stopped(v)).running,
        started(stopped(v)).port == v.port,
        stopped(started(v)) == stopped(v),
{
}

} // verus!
