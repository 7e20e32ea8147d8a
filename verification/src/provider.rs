//! The provider surface that is pure logic: the endpoint join and the
//! server-sent-events frame parser (UTF-8-safe buffering, blank-line event
//! splitting, `data:` line concatenation, comment skipping, `[DONE]`
//! termination).

use crate::text::{
    append_str, chars_of, decimal, join, join_chars, push_decimal, starts_with, starts_with_exec, string_of,
    trail_char,
};
use vstd::prelude::*;
use vstd::utf8::{decode_utf8, valid_utf8};

pub mod stream;
pub mod wire;

pub use stream::{
    apply_frame, fold_event, Frame, FunctionCall, OutputItem, ReasoningBlock, TurnEvent, TurnResult, TurnSink,
};

pub use wire::{
    CallOutput, FunctionCallInput, FunctionCallOutputInput, InputEntry, InputImagePart, InputMessage, ReasoningEffort,
    ResponseRequest, StoredOutput, ToolKind, ToolSpec,
};

verus! {

/// A model as reported by the provider's `/models` endpoint.
#[derive(Debug)]
pub struct Model {
    pub id: String,
}

/// Why a provider call or stream failed.
#[derive(Debug)]
pub enum ProviderError {
    /// The request itself failed (connecting, sending, reading the body);
    /// `connect_or_timeout` when it failed to connect or timed out.
    Request { connect_or_timeout: bool, message: String },
    /// No data for the idle timeout: a dead stream.
    IdleTimeout,
    /// The server answered with a non-success status.
    Status { status: u16, body: String },
    /// A stream frame was not valid UTF-8.
    MalformedStream(String),
}

/// The text of a provider error.
pub open spec fn error_text(e: ProviderError) -> Seq<char> {
    match e {
        ProviderError::Request { message, .. } => "provider request failed: "@ + message@,
        ProviderError::IdleTimeout => "provider stream went idle (no data for the idle timeout)"@,
        ProviderError::Status { status, body } => "provider returned "@ + decimal(status as nat) + ": "@ + body@,
        ProviderError::MalformedStream(msg) => "malformed stream: "@ + msg@,
    }
}

/// An error a new attempt may cure: a failed connect or a timeout, a
/// stream that went idle before its body, a server-side status.
pub open spec fn is_retryable(e: ProviderError) -> bool {
    match e {
        ProviderError::Request { connect_or_timeout, .. } => connect_or_timeout,
        ProviderError::IdleTimeout => true,
        ProviderError::Status { status, .. } => 500 <= status < 599,
        ProviderError::MalformedStream(_) => false,
    }
}

/// The backoff before retry `attempt + 1`: doubling from one second,
/// capped at 64.
pub open spec fn backoff_secs(attempt: nat) -> nat
    decreases attempt,
{
    if attempt == 0 {
        1
    } else if attempt > 6 {
        64
    } else {
        2 * backoff_secs((attempt - 1) as nat)
    }
}

impl ProviderError {
    /// The error as a message.
    pub fn message(&self) -> (r: String)
        ensures
            r@ == error_text(*self),
    {
        let mut out: Vec<char> = Vec::new();
        match self {
            ProviderError::Request { message, .. } => {
                append_str(&mut out, "provider request failed: ");
                append_str(&mut out, message.as_str());
            },
            ProviderError::IdleTimeout => {
                append_str(&mut out, "provider stream went idle (no data for the idle timeout)");
            },
            ProviderError::Status { status, body } => {
                append_str(&mut out, "provider returned ");
                push_decimal(&mut out, *status as u64);
                append_str(&mut out, ": ");
                append_str(&mut out, body.as_str());
            },
            ProviderError::MalformedStream(msg) => {
                append_str(&mut out, "malformed stream: ");
                append_str(&mut out, msg.as_str());
            },
        }
        string_of(&out)
    }
}

/// The retry decision after a failed attempt: the seconds to wait before
/// the next one, or `None` when the error is final (not retryable, or the
/// `retries` allowance is spent).
pub fn retry_delay_secs(error: &ProviderError, attempt: u32, retries: u32) -> (r: Option<u64>)
    ensures
        r == if is_retryable(*error) && attempt < retries {
            Some(backoff_secs(attempt as nat) as u64)
        } else {
            None::<u64>
        },
{
    let retryable = match error {
        ProviderError::Request { connect_or_timeout, .. } => *connect_or_timeout,
        ProviderError::IdleTimeout => true,
        ProviderError::Status { status, .. } => 500 <= *status && *status < 599,
        ProviderError::MalformedStream(_) => false,
    };
    if !retryable || attempt >= retries {
        return None;
    }
    let cap: u32 = if attempt < 6 { attempt } else { 6 };
    let secs: u64 = 1u64 << cap;
    proof {
        reveal_with_fuel(backoff_secs, 7);
        assert(secs == backoff_secs(cap as nat)) by {
            if cap == 0 {
                assert(1u64 << 0u32 == 1) by (bit_vector);
            } else if cap == 1 {
                assert(1u64 << 1u32 == 2) by (bit_vector);
            } else if cap == 2 {
                assert(1u64 << 2u32 == 4) by (bit_vector);
            } else if cap == 3 {
                assert(1u64 << 3u32 == 8) by (bit_vector);
            } else if cap == 4 {
                assert(1u64 << 4u32 == 16) by (bit_vector);
            } else if cap == 5 {
                assert(1u64 << 5u32 == 32) by (bit_vector);
            } else {
                assert(1u64 << 6u32 == 64) by (bit_vector);
            }
        }
        assert(backoff_secs(attempt as nat) == backoff_secs(cap as nat));
    }
    Some(secs)
}

/// `base` without its trailing slashes, a slash, then `path`.
pub open spec fn endpoint_url_of(base: Seq<char>, path: Seq<char>) -> Seq<char> {
    base.take(base.len() - trail_char(base, '/')) + seq!['/'] + path
}

/// Join the API root with a sub-path, tolerating trailing slashes on `base`.
pub fn endpoint_url(base: &str, path: &str) -> (r: String)
    ensures
        r@ == endpoint_url_of(base@, path@),
{
    let b = chars_of(base);
    let t = crate::text::trim_char_end(&b, '/');
    let mut s = string_of(&t);
    crate::text::push_char(&mut s, '/');
    s.append(path);
    s
}

/// The declared standard type of a UTF-8 decoding failure.
#[verifier::external_type_specification]
#[verifier::external_body]
pub struct ExUtf8Error(std::str::Utf8Error);

/// `std::str::from_utf8`: succeeds exactly on valid UTF-8 and then yields
/// the decoded characters.
#[verifier::external_body]
pub(crate) fn str_from_utf8(v: &[u8]) -> (r: Result<&str, std::str::Utf8Error>)
    ensures
        r is Ok <==> valid_utf8(v@),
        r matches Ok(s) ==> s@ == decode_utf8(v@),
{
    std::str::from_utf8(v)
}

/// The `Display` text of a decoding failure; nothing is claimed of it.
#[verifier::external_body]
pub(crate) fn utf8_error_text(e: &std::str::Utf8Error) -> String {
    e.to_string()
}

/// The parser's state: unconsumed bytes, the `data:` payloads of the event
/// in flight, and whether `[DONE]` has arrived.
pub struct SseState {
    pub buf: Seq<u8>,
    pub data: Seq<Seq<char>>,
    pub terminated: bool,
}

/// The first newline byte at or after `i`.
pub open spec fn newline_from(b: Seq<u8>, i: int) -> Option<int>
    decreases b.len() - i,
{
    if i < 0 || i >= b.len() {
        None
    } else if b[i] == 10 {
        Some(i)
    } else {
        newline_from(b, i + 1)
    }
}

/// A decoded line without its trailing `\r` and `\n` characters.
pub open spec fn strip_line_end(s: Seq<char>) -> Seq<char>
    decreases s.len(),
{
    if s.len() > 0 && (s.last() == '\r' || s.last() == '\n') {
        strip_line_end(s.drop_last())
    } else {
        s
    }
}

/// One line's effect on the in-flight payloads, and the event it completes:
/// a blank line completes a non-empty event (payloads joined by newlines),
/// a `data:` line adds its value (one leading space dropped), any other
/// line (comments, other fields) changes nothing.
pub open spec fn line_event(data: Seq<Seq<char>>, line: Seq<char>) -> (Seq<Seq<char>>, Option<Seq<char>>) {
    if line.len() == 0 {
        if data.len() > 0 {
            (Seq::empty(), Some(join(data, seq!['\n'])))
        } else {
            (data, None)
        }
    } else if starts_with(line, "data:"@) {
        let v = line.skip(5);
        (data.push(if v.len() > 0 && v[0] == ' ' { v.skip(1) } else { v }), None)
    } else {
        (data, None)
    }
}

/// Consume every complete line of `buf`: the bytes left, the payloads in
/// flight, the events completed (after `out`), and whether every line was
/// valid UTF-8 (on the first invalid one, consumption stops before it).
pub open spec fn drain(buf: Seq<u8>, data: Seq<Seq<char>>, out: Seq<Seq<char>>) -> (Seq<u8>, Seq<Seq<char>>, Seq<Seq<char>>, bool)
    decreases buf.len(),
{
    match newline_from(buf, 0) {
        None => (buf, data, out, true),
        Some(p) => if 0 <= p < buf.len() {
            let line = buf.take(p + 1);
            if valid_utf8(line) {
                let (d2, e) = line_event(data, strip_line_end(decode_utf8(line)));
                drain(
                    buf.skip(p + 1),
                    d2,
                    match e {
                        Some(x) => out.push(x),
                        None => out,
                    },
                )
            } else {
                (buf, data, out, false)
            }
        } else {
            (buf, data, out, true)
        },
    }
}

pub open spec fn done_marker() -> Seq<char> {
    "[DONE]"@
}

/// The state after feeding `chunk`, and the events it completed (`None` on
/// a line that is not valid UTF-8; the state then keeps what was consumed
/// before it).
pub open spec fn feed_spec(st: SseState, chunk: Seq<u8>) -> (SseState, Option<Seq<Seq<char>>>) {
    let r = drain(st.buf + chunk, st.data, Seq::empty());
    if r.3 {
        (SseState { buf: r.0, data: r.1, terminated: st.terminated || r.2.contains(done_marker()) }, Some(r.2))
    } else {
        (SseState { buf: r.0, data: r.1, terminated: st.terminated }, None)
    }
}

/// In-tree server-sent-events frame parser.
pub struct SseParser {
    buf: Vec<u8>,
    /// The `data:` payloads of the in-flight event: a `data:` line and its
    /// terminating blank line can split across chunks.
    data: Vec<Vec<char>>,
    /// Set once a `[DONE]` data payload arrives; the caller stops reading.
    pub terminated: bool,
}

impl View for SseParser {
    type V = SseState;

    closed spec fn view(&self) -> SseState {
        SseState {
            buf: self.buf@,
            data: self.data@.map_values(|v: Vec<char>| v@),
            terminated: self.terminated,
        }
    }
}

pub open spec fn string_views(v: Seq<String>) -> Seq<Seq<char>> {
    v.map_values(|s: String| s@)
}

/// The first newline in `v` at or after `from`.
fn find_newline(v: &Vec<u8>, from: usize) -> (r: Option<usize>)
    requires
        from <= v@.len(),
    ensures
        r matches Some(p) ==> newline_from(v@, from as int) == Some(p as int) && p < v@.len(),
        r is None ==> newline_from(v@, from as int) is None,
{
    let mut i = from;
    while i < v.len()
        invariant
            from <= i <= v@.len(),
            newline_from(v@, from as int) == newline_from(v@, i as int),
        decreases v@.len() - i,
    {
        if v[i] == 10u8 {
            return Some(i);
        }
        i = i + 1;
    }
    None
}

/// `v[lo..hi]` as a new vector.
fn byte_range(v: &Vec<u8>, lo: usize, hi: usize) -> (r: Vec<u8>)
    requires
        lo <= hi <= v@.len(),
    ensures
        r@ == v@.subrange(lo as int, hi as int),
{
    let mut r: Vec<u8> = Vec::new();
    let mut i = lo;
    while i < hi
        invariant
            lo <= i <= hi <= v@.len(),
            r@ == v@.subrange(lo as int, i as int),
        decreases hi - i,
    {
        r.push(v[i]);
        assert(v@.subrange(lo as int, i as int).push(v@[i as int]) =~= v@.subrange(lo as int, i + 1));
        i = i + 1;
    }
    r
}

/// The line without trailing `\r` and `\n`.
fn strip_line_end_exec(v: &[char]) -> (r: Vec<char>)
    ensures
        r@ == strip_line_end(v@),
{
    let mut k = v.len();
    assert(v@.take(k as int) =~= v@);
    while k > 0 && (v[k - 1] == '\r' || v[k - 1] == '\n')
        invariant
            k <= v@.len(),
            strip_line_end(v@) == strip_line_end(v@.take(k as int)),
        decreases k,
    {
        assert(v@.take(k as int).drop_last() =~= v@.take(k - 1));
        k = k - 1;
    }
    assert(v@.subrange(0, k as int) =~= v@.take(k as int));
    crate::text::slice_vec(v, 0, k)
}

/// Whether any event is the `[DONE]` marker.
fn has_done(out: &Vec<String>) -> (r: bool)
    ensures
        r == string_views(out@).contains(done_marker()),
{
    let marker = chars_of("[DONE]");
    let mut i: usize = 0;
    while i < out.len()
        invariant
            i <= out@.len(),
            marker@ == done_marker(),
            forall|k: int| 0 <= k < i ==> out@[k]@ != done_marker(),
        decreases out@.len() - i,
    {
        let c = chars_of(out[i].as_str());
        if crate::text::chars_eq(&c, &marker) {
            assert(string_views(out@)[i as int] == done_marker());
            return true;
        }
        i = i + 1;
    }
    proof {
        if string_views(out@).contains(done_marker()) {
            let k = choose|k: int| 0 <= k < string_views(out@).len() && string_views(out@)[k] == done_marker();
            assert(out@[k]@ == done_marker());
        }
    }
    false
}

impl SseParser {
    pub fn new() -> (p: Self)
        ensures
            p@ == (SseState { buf: Seq::empty(), data: Seq::empty(), terminated: false }),
    {
        let p = SseParser { buf: Vec::new(), data: Vec::new(), terminated: false };
        assert(p@.data =~= Seq::<Seq<char>>::empty());
        p
    }

    /// Feed a raw chunk; returns the assembled data payloads of the events
    /// completed by this chunk (multiple `data:` lines joined with `\n`).
    pub fn feed(&mut self, chunk: &[u8]) -> (r: Result<Vec<String>, ProviderError>)
        ensures
            final(self)@ == feed_spec(old(self)@, chunk@).0,
            match (r, feed_spec(old(self)@, chunk@).1) {
                (Ok(v), Some(o)) => string_views(v@) == o,
                (Err(ProviderError::MalformedStream(_)), None) => true,
                _ => false,
            },
    {
        let ghost st = self@;
        let mut i: usize = 0;
        while i < chunk.len()
            invariant
                i <= chunk@.len(),
                self@.data == st.data,
                self@.terminated == st.terminated,
                self@.buf == st.buf + chunk@.take(i as int),
            decreases chunk@.len() - i,
        {
            self.buf.push(chunk[i]);
            assert(st.buf + chunk@.take(i + 1) =~= (st.buf + chunk@.take(i as int)).push(chunk@[i as int]));
            i = i + 1;
        }
        assert(chunk@.take(chunk@.len() as int) =~= chunk@);
        let ghost whole = drain(st.buf + chunk@, st.data, Seq::empty());
        let mut out: Vec<String> = Vec::new();
        let prefix = chars_of("data:");
        let sep = vec!['\n'];
        proof {
            reveal_strlit("data:");
            assert(string_views(out@) =~= Seq::<Seq<char>>::empty());
        }
        loop
            invariant
                whole == drain(st.buf + chunk@, st.data, Seq::empty()),
                st == old(self)@,
                prefix@ == "data:"@,
                prefix@.len() == 5,
                sep@ == seq!['\n'],
                self@.terminated == st.terminated,
                drain(self@.buf, self@.data, string_views(out@)) == whole,
            ensures
                drain(self@.buf, self@.data, string_views(out@)) == whole,
                newline_from(self@.buf, 0) is None,
                self@.terminated == st.terminated,
            decreases self@.buf.len(),
        {
            let n = self.buf.len();
            let p = match find_newline(&self.buf, 0) {
                None => break,
                Some(p) => p,
            };
            let line = byte_range(&self.buf, 0, p + 1);
            assert(self.buf@.subrange(0, p + 1) =~= self.buf@.take(p + 1));
            match str_from_utf8(line.as_slice()) {
                Err(e) => {
                    assert(drain(self@.buf, self@.data, string_views(out@)) == (
                        self@.buf,
                        self@.data,
                        string_views(out@),
                        false,
                    ));
                    assert(whole.3 == false);
                    assert(feed_spec(st, chunk@).1 is None);
                    assert(feed_spec(st, chunk@).0 == self@);
                    let msg = utf8_error_text(&e);
                    return Err(ProviderError::MalformedStream(msg));
                },
                Ok(s) => {
                    let decoded = chars_of(s);
                    let text = strip_line_end_exec(&decoded);
                    let ghost before = string_views(out@);
                    let ghost dv = self@.data;
                    if text.len() == 0 {
                        if self.data.len() > 0 {
                            let joined = join_chars(&self.data, &sep);
                            out.push(string_of(&joined));
                            self.data = Vec::new();
                            assert(string_views(out@) =~= before.push(join(dv, seq!['\n'])));
                            assert(self@.data =~= Seq::<Seq<char>>::empty());
                        }
                    } else if starts_with_exec(&text, &prefix) {
                        let n = text.len();
                        let start: usize = if n > 5 && text[5] == ' ' { 6 } else { 5 };
                        let value = crate::text::slice_vec(&text, start, n);
                        proof {
                            let v = text@.skip(5);
                            if n > 5 && text@[5] == ' ' {
                                assert(value@ =~= v.skip(1));
                            } else {
                                assert(value@ =~= v);
                            }
                        }
                        self.data.push(value);
                        assert(self@.data =~= dv.push(value@));
                    }
                    let rest = byte_range(&self.buf, p + 1, self.buf.len());
                    assert(self.buf@.subrange(p + 1, self.buf@.len() as int) =~= self.buf@.skip(p + 1));
                    self.buf = rest;
                },
            }
        }
        proof {
            assert(drain(self@.buf, self@.data, string_views(out@)) == (self@.buf, self@.data, string_views(out@), true));
        }
        if !self.terminated && has_done(&out) {
            self.terminated = true;
        }
        Ok(out)
    }
}

impl Default for SseParser {
    fn default() -> (p: Self)
        ensures
            p@ == (SseState { buf: Seq::empty(), data: Seq::empty(), terminated: false }),
    {
        SseParser::new()
    }
}

/// A newline found in `buf` is found at the same place in any extension.
proof fn lemma_newline_extend(buf: Seq<u8>, y: Seq<u8>, i: int)
    requires
        0 <= i,
    ensures
        newline_from(buf, i) matches Some(p) ==> newline_from(buf + y, i) == Some(p),
        newline_from(buf, i) matches Some(p) ==> i <= p < buf.len(),
    decreases buf.len() - i,
{
    if i < buf.len() && buf[i] != 10 {
        lemma_newline_extend(buf, y, i + 1);
    }
}

/// The events found do not depend on the events already collected.
proof fn lemma_drain_out(buf: Seq<u8>, data: Seq<Seq<char>>, out: Seq<Seq<char>>)
    ensures
        drain(buf, data, out).0 == drain(buf, data, Seq::empty()).0,
        drain(buf, data, out).1 == drain(buf, data, Seq::empty()).1,
        drain(buf, data, out).2 == out + drain(buf, data, Seq::empty()).2,
        drain(buf, data, out).3 == drain(buf, data, Seq::empty()).3,
    decreases buf.len(),
{
    match newline_from(buf, 0) {
        None => {
            assert(out + Seq::<Seq<char>>::empty() =~= out);
        },
        Some(p) => {
            if 0 <= p < buf.len() {
                let line = buf.take(p + 1);
                if valid_utf8(line) {
                    let (d2, e) = line_event(data, strip_line_end(decode_utf8(line)));
                    let rest = buf.skip(p + 1);
                    match e {
                        Some(x) => {
                            lemma_drain_out(rest, d2, out.push(x));
                            lemma_drain_out(rest, d2, seq![x]);
                            assert(Seq::<Seq<char>>::empty().push(x) =~= seq![x]);
                            assert(out.push(x) + drain(rest, d2, Seq::empty()).2 =~= out + (seq![x]
                                + drain(rest, d2, Seq::empty()).2));
                        },
                        None => {
                            lemma_drain_out(rest, d2, out);
                        },
                    }
                } else {
                    assert(out + Seq::<Seq<char>>::empty() =~= out);
                }
            } else {
                assert(out + Seq::<Seq<char>>::empty() =~= out);
            }
        },
    }
}

/// Bytes that arrive later only extend what is left unconsumed.
proof fn lemma_drain_extend(buf: Seq<u8>, y: Seq<u8>, data: Seq<Seq<char>>, out: Seq<Seq<char>>)
    requires
        drain(buf, data, out).3,
    ensures
        drain(buf + y, data, out) == drain(drain(buf, data, out).0 + y, drain(buf, data, out).1, drain(buf, data, out).2),
    decreases buf.len(),
{
    lemma_newline_extend(buf, y, 0);
    match newline_from(buf, 0) {
        None => {},
        Some(p) => {
            let line = buf.take(p + 1);
            assert((buf + y).take(p + 1) =~= line);
            assert((buf + y).skip(p + 1) =~= buf.skip(p + 1) + y);
            let (d2, e) = line_event(data, strip_line_end(decode_utf8(line)));
            let o2 = match e {
                Some(x) => out.push(x),
                None => out,
            };
            lemma_drain_extend(buf.skip(p + 1), y, d2, o2);
        },
    }
}

/// Feeding a stream in two chunks completes the same events, in the same
/// order, and leaves the same state as feeding it at once.
pub proof fn lemma_feed_chunking(st: SseState, a: Seq<u8>, b: Seq<u8>)
    requires
        feed_spec(st, a).1 is Some,
        feed_spec(feed_spec(st, a).0, b).1 is Some,
    ensures
        feed_spec(st, a + b) == (
            feed_spec(feed_spec(st, a).0, b).0,
            Some(feed_spec(st, a).1.unwrap() + feed_spec(feed_spec(st, a).0, b).1.unwrap()),
        ),
{
    let s1 = feed_spec(st, a).0;
    let first = drain(st.buf + a, st.data, Seq::empty());
    assert(st.buf + (a + b) =~= (st.buf + a) + b);
    lemma_drain_extend(st.buf + a, b, st.data, Seq::empty());
    lemma_drain_out(s1.buf + b, s1.data, first.2);
    let o1 = first.2;
    let o2 = drain(s1.buf + b, s1.data, Seq::empty()).2;
    assert((o1 + o2).contains(done_marker()) == (o1.contains(done_marker()) || o2.contains(done_marker()))) by {
        if (o1 + o2).contains(done_marker()) {
            let k = choose|k: int| 0 <= k < (o1 + o2).len() && (o1 + o2)[k] == done_marker();
            if k < o1.len() {
                assert(o1[k] == done_marker());
            } else {
                assert(o2[k - o1.len()] == done_marker());
            }
        }
        if o1.contains(done_marker()) {
            let k = choose|k: int| 0 <= k < o1.len() && o1[k] == done_marker();
            assert((o1 + o2)[k] == done_marker());
        }
        if o2.contains(done_marker()) {
            let k = choose|k: int| 0 <= k < o2.len() && o2[k] == done_marker();
            assert((o1 + o2)[o1.len() + k] == done_marker());
        }
    }
}

/// Feeding chunks one after the other: the state after the last, and the
/// payloads of all of them in order (`None` once a chunk fails).
pub open spec fn feed_all(st: SseState, chunks: Seq<Seq<u8>>) -> (SseState, Option<Seq<Seq<char>>>)
    decreases chunks.len(),
{
    if chunks.len() == 0 {
        (st, Some(Seq::empty()))
    } else {
        let (s1, o1) = feed_all(st, chunks.drop_last());
        match o1 {
            None => (s1, None),
            Some(p1) => {
                let (s2, o2) = feed_spec(s1, chunks.last());
                match o2 {
                    None => (s2, None),
                    Some(p2) => (s2, Some(p1 + p2)),
                }
            },
        }
    }
}

/// The bytes of the chunks, in order.
pub open spec fn joined_chunks(chunks: Seq<Seq<u8>>) -> Seq<u8>
    decreases chunks.len(),
{
    if chunks.len() == 0 {
        Seq::empty()
    } else {
        joined_chunks(chunks.drop_last()) + chunks.last()
    }
}

proof fn lemma_feed_empty(st: SseState)
    requires
        newline_from(st.buf, 0) is None,
    ensures
        feed_spec(st, Seq::empty()) == (st, Some(Seq::<Seq<char>>::empty())),
{
    assert(st.buf + Seq::<u8>::empty() =~= st.buf);
    assert(!Seq::<Seq<char>>::empty().contains(done_marker()));
}

/// Chunk boundaries never change the decoded payloads: feeding a stream
/// in any chunks, none failing, leaves the parser where feeding it whole
/// does, with the same payloads (from a parser holding no complete line,
/// as a fresh one and every one after a feed).
pub proof fn lemma_any_chunking(st: SseState, chunks: Seq<Seq<u8>>)
    requires
        newline_from(st.buf, 0) is None,
        feed_all(st, chunks).1 is Some,
    ensures
        feed_spec(st, joined_chunks(chunks)) == feed_all(st, chunks),
    decreases chunks.len(),
{
    if chunks.len() == 0 {
        lemma_feed_empty(st);
    } else {
        let init = chunks.drop_last();
        lemma_any_chunking(st, init);
        lemma_feed_chunking(st, joined_chunks(init), chunks.last());
    }
}

} // verus!
