//! The streamed reply of the model service: what each line of the event
//! stream does to the reply being gathered, and the usage it reports.
use vstd::prelude::*;
use std::time::Duration;
use crate::text::{
    contains, contains_v, copy_range, from_chars, starts_with, starts_with_v, to_chars, trim,
    trim_end, trim_end_v, trim_v, CharSet, Class,
};

verus! {

/// Token counts of one call.
#[derive(Clone, Copy, Debug, Default, PartialEq, Eq)]
pub struct Usage {
    pub prompt_tokens: u64,
    pub completion_tokens: u64,
}

impl Usage {
    /// Prompt and completion tokens together.
    pub fn total(&self) -> (r: u64)
        requires
            self.prompt_tokens + self.completion_tokens <= u64::MAX,
        ensures
            r == self.prompt_tokens + self.completion_tokens,
    {
        self.prompt_tokens + self.completion_tokens
    }
}

/// What one streamed call brought back.
pub struct StreamOutcome {
    pub content: String,
    pub usage: Option<Usage>,
    pub interrupted: bool,
    pub elapsed: Duration,
}

/// What the worker that makes a call reports.
pub enum ApiEvent {
    Delta(String),
    Done(Result<StreamOutcome, String>),
}

/// At most `n` characters of `s`, with `…` after them when `s` is longer.
pub open spec fn truncated(s: Seq<char>, n: nat) -> Seq<char> {
    if s.len() <= n {
        s
    } else {
        s.take(n as int).push('…')
    }
}

pub fn truncate_chars(s: &str, n: usize) -> (r: String)
    ensures
        r@ == truncated(s@, n as nat),
{
    let cs = to_chars(s);
    if cs.len() <= n {
        String::from_str(s)
    } else {
        let mut t = copy_range(&cs, 0, n);
        t.push('…');
        assert(t@ =~= s@.take(n as int).push('…'));
        from_chars(&t)
    }
}

/// The message of a call that the service answered with an error status:
/// the status, then at most 600 characters of the body.
pub open spec fn http_error_text(status: Seq<char>, body: Seq<char>) -> Seq<char> {
    "接口返回错误 HTTP "@ + status + "："@ + truncated(body, 600)
}

pub fn http_error_message(status: &str, body: &str) -> (r: String)
    ensures
        r@ == http_error_text(status@, body@),
{
    let mut r = String::from_str("接口返回错误 HTTP ");
    r.append(status);
    r.append("：");
    r.append(truncate_chars(body, 600).as_str());
    r
}

/// Whether a failed call should be made again without asking for usage:
/// the service complained about `stream_options`.
pub open spec fn rejects_usage_option(err: Seq<char>) -> bool {
    contains(err, "stream_options"@)
}

pub fn should_retry_without_usage(err: &str) -> (r: bool)
    ensures
        r == rejects_usage_option(err@),
{
    contains_v(&to_chars(err), &to_chars("stream_options"))
}

// ---------------------------------------------------------- stream chunks

/// The parts of one streamed JSON chunk that the reply is built from: the
/// `usage` member unless absent or null (with its two counts where they are
/// unsigned integers), and the text at `/choices/0/delta/content` where it
/// is a string.
pub struct ChunkFields {
    pub usage: Option<(Option<u64>, Option<u64>)>,
    pub delta: Option<String>,
}

pub struct ChunkFieldsView {
    pub usage: Option<(Option<u64>, Option<u64>)>,
    pub delta: Option<Seq<char>>,
}

impl View for ChunkFields {
    type V = ChunkFieldsView;

    open spec fn view(&self) -> ChunkFieldsView {
        ChunkFieldsView {
            usage: self.usage,
            delta: match self.delta {
                Some(d) => Some(d@),
                None => None,
            },
        }
    }
}

pub open spec fn chunk_view(c: Option<ChunkFields>) -> Option<ChunkFieldsView> {
    match c {
        Some(f) => Some(f@),
        None => None,
    }
}

/// What `serde_json::from_str::<Value>` makes of a chunk, read down to its
/// `ChunkFields`; `None` when the text is not JSON.
pub uninterp spec fn chunk_fields_of(payload: Seq<char>) -> Option<ChunkFieldsView>;

/// Parses a chunk with `serde_json::from_str` into a `serde_json::Value`
/// and reads the members that `ChunkFields` names with `Value::get`,
/// `Value::pointer`, `Value::as_u64` and `Value::as_str`. What that gives
/// is named `chunk_fields_of`: it depends on the payload's text alone.
#[verifier::external_body]
fn decode_chunk(payload: &str) -> (r: Option<ChunkFields>)
    ensures
        chunk_view(r) == chunk_fields_of(payload@),
{
    let v: serde_json::Value = serde_json::from_str(payload).ok()?;
    let usage = match v.get("usage") {
        None | Some(serde_json::Value::Null) => None,
        Some(u) => Some((
            u.get("prompt_tokens").and_then(serde_json::Value::as_u64),
            u.get("completion_tokens").and_then(serde_json::Value::as_u64),
        )),
    };
    let delta = v.pointer("/choices/0/delta/content").and_then(serde_json::Value::as_str);
    Some(ChunkFields { usage, delta: delta.map(|d| d.to_string()) })
}

// ------------------------------------------------------------ the stream

/// A line of the event stream as the reader hands it on: without the `\r`
/// and `\n` characters at its end.
pub open spec fn line_text(raw: Seq<char>) -> Seq<char> {
    trim_end(raw, Class::AnyOf(seq!['\r', '\n']))
}

pub fn event_line(raw: &str) -> (r: String)
    ensures
        r@ == line_text(raw@),
{
    let ends = CharSet::any_of(vec!['\r', '\n']);
    assert(ends.chars@ =~= seq!['\r', '\n']);
    from_chars(&trim_end_v(&to_chars(raw), &ends))
}

/// The reply gathered so far.
pub struct StreamState {
    pub content: String,
    pub usage: Option<Usage>,
    pub got_first: bool,
    pub interrupted: bool,
}

pub struct StreamView {
    pub content: Seq<char>,
    pub usage: Option<Usage>,
    pub got_first: bool,
    pub interrupted: bool,
}

impl View for StreamState {
    type V = StreamView;

    open spec fn view(&self) -> StreamView {
        StreamView {
            content: self.content@,
            usage: self.usage,
            got_first: self.got_first,
            interrupted: self.interrupted,
        }
    }
}

/// What the next step of the reading is after a line or a quiet interval.
#[derive(Debug, PartialEq, Eq)]
pub enum StreamStep {
    /// Read on.
    Continue,
    /// Stop reading; the reply is complete (or interrupted).
    Stop,
    /// Give up: nothing came for too long.
    TimedOut,
}

/// What a decoded chunk adds: its usage (a missing count reads as 0)
/// replaces the one known, and a non-empty delta is appended.
pub open spec fn chunk_applied(st: StreamView, fields: Option<ChunkFieldsView>) -> StreamView {
    match fields {
        None => st,
        Some(f) => {
            let st1 = match f.usage {
                Some((p, c)) => StreamView {
                    usage: Some(
                        Usage {
                            prompt_tokens: match p {
                                Some(v) => v,
                                None => 0,
                            },
                            completion_tokens: match c {
                                Some(v) => v,
                                None => 0,
                            },
                        },
                    ),
                    ..st
                },
                None => st,
            };
            match f.delta {
                Some(d) => if d.len() > 0 {
                    StreamView { content: st1.content + d, got_first: true, ..st1 }
                } else {
                    st1
                },
                None => st1,
            }
        },
    }
}

/// The text after `data:` of an event line, trimmed.
pub open spec fn payload_of(line: Seq<char>) -> Seq<char> {
    trim(line.skip(5))
}

/// The effect of one line of the event stream: an interruption stops the
/// reading; lines other than `data:` lines are skipped; `[DONE]` ends the
/// reply; any other payload is decoded as a chunk.
pub open spec fn line_effect(st: StreamView, line: Seq<char>, interrupt: bool, fields: Option<
    ChunkFieldsView,
>) -> (StreamView, StreamStep) {
    if interrupt {
        (StreamView { interrupted: true, ..st }, StreamStep::Stop)
    } else if !starts_with(line, "data:"@) {
        (st, StreamStep::Continue)
    } else if payload_of(line) == "[DONE]"@ {
        (st, StreamStep::Stop)
    } else {
        (chunk_applied(st, fields), StreamStep::Continue)
    }
}

/// How long the reading waits for the first text: 120 seconds.
pub open spec fn first_text_limit_nanos() -> nat {
    120_000_000_000
}

/// The effect of an interval in which no line came: an interruption stops
/// the reading; no text after more than 120 seconds gives up.
pub open spec fn quiet_effect(st: StreamView, interrupt: bool, elapsed_nanos: u128) -> (
    StreamView,
    StreamStep,
) {
    if interrupt {
        (StreamView { interrupted: true, ..st }, StreamStep::Stop)
    } else if !st.got_first && elapsed_nanos > first_text_limit_nanos() {
        (st, StreamStep::TimedOut)
    } else {
        (st, StreamStep::Continue)
    }
}

/// The message of a reading that gave up waiting.
pub const TIMEOUT_MESSAGE: &'static str = "等待模型响应超时（120 秒未收到任何输出）。";

impl StreamState {
    pub fn new() -> (r: StreamState)
        ensures
            r@ == (StreamView {
                content: Seq::empty(),
                usage: None,
                got_first: false,
                interrupted: false,
            }),
    {
        StreamState { content: String::new(), usage: None, got_first: false, interrupted: false }
    }

    /// Takes in a decoded chunk.
    pub fn apply_chunk(&mut self, fields: Option<ChunkFields>)
        ensures
            final(self)@ == chunk_applied(old(self)@, chunk_view(fields)),
    {
        match fields {
            None => {},
            Some(f) => {
                match f.usage {
                    Some((p, c)) => {
                        let pt = match p {
                            Some(v) => v,
                            None => 0,
                        };
                        let ct = match c {
                            Some(v) => v,
                            None => 0,
                        };
                        self.usage = Some(Usage { prompt_tokens: pt, completion_tokens: ct });
                    },
                    None => {},
                }
                match f.delta {
                    Some(d) => {
                        if !d.as_str().is_empty() {
                            self.content.append(d.as_str());
                            self.got_first = true;
                        }
                    },
                    None => {},
                }
            },
        }
    }

    /// Takes in one line of the event stream (without its line ending);
    /// `interrupt` tells whether an interruption was asked for.
    pub fn on_line(&mut self, line: &str, interrupt: bool) -> (step: StreamStep)
        ensures
            (final(self)@, step) == line_effect(
                old(self)@,
                line@,
                interrupt,
                chunk_fields_of(payload_of(line@)),
            ),
    {
        if interrupt {
            self.interrupted = true;
            return StreamStep::Stop;
        }
        let cs = to_chars(line);
        let data = to_chars("data:");
        if !starts_with_v(&cs, &data) {
            return StreamStep::Continue;
        }
        proof {
            reveal_strlit("data:");
        }
        let payload_chars = trim_v(&copy_range(&cs, 5, cs.len()));
        assert(payload_chars@ == payload_of(line@)) by {
            assert(cs@.subrange(5, cs.len() as int) =~= line@.skip(5));
        }
        let done = to_chars("[DONE]");
        if payload_chars.len() == done.len() && starts_with_v(&payload_chars, &done) {
            assert(payload_chars@ =~= "[DONE]"@) by {
                assert(payload_chars@.subrange(0, done.len() as int) =~= payload_chars@);
            }
            return StreamStep::Stop;
        }
        assert(payload_chars@ != "[DONE]"@) by {
            if payload_chars@ == "[DONE]"@ {
                assert(payload_chars@.subrange(0, done.len() as int) =~= done@);
            }
        }
        let payload = from_chars(&payload_chars);
        let fields = decode_chunk(payload.as_str());
        self.apply_chunk(fields);
        StreamStep::Continue
    }

    /// An interval in which no line came; `elapsed_nanos` is the time since
    /// the call was made.
    pub fn on_quiet(&mut self, interrupt: bool, elapsed_nanos: u128) -> (step: StreamStep)
        ensures
            (final(self)@, step) == quiet_effect(old(self)@, interrupt, elapsed_nanos),
    {
        if interrupt {
            self.interrupted = true;
            StreamStep::Stop
        } else if !self.got_first && elapsed_nanos > 120_000_000_000 {
            StreamStep::TimedOut
        } else {
            StreamStep::Continue
        }
    }
}


// ================================================================= laws

/// Reading the stream never takes text back: after a line or a quiet
/// interval the gathered reply extends the one before; an interruption
/// always stops the reading and marks the reply interrupted; only a quiet
/// interval before any text can give up.
pub proof fn lemma_stream_progress(
    st: StreamView,
    line: Seq<char>,
    interrupt: bool,
    fields: Option<ChunkFieldsView>,
    elapsed_nanos: u128,
)
    ensures
        ({
            let (n, step) = line_effect(st, line, interrupt, fields);
            &&& n.content.len() >= st.content.len()
            &&& n.content.take(st.content.len() as int) == st.content
            &&& st.got_first ==> n.got_first
            &&& interrupt ==> step == StreamStep::Stop && n.interrupted
            &&& step != StreamStep::TimedOut
        }),
        ({
            let (n, step) = quiet_effect(st, interrupt, elapsed_nanos);
            &&& n.content == st.content
            &&& interrupt ==> step == StreamStep::Stop && n.interrupted
            &&& step == StreamStep::TimedOut ==> !st.got_first
        }),
{
    let (n, step) = line_effect(st, line, interrupt, fields);
    assert(st.content.take(st.content.len() as int) =~= st.content);
    if let Some(f) = fields {
        if let Some(d) = f.delta {
            assert((st.content + d).take(st.content.len() as int) =~= st.content);
        }
    }
}

/// A data line's chunk replaces the usage known before with the one it
/// reports (a missing count reads as 0), whatever that was, and appends its
/// text, if any, after the reply gathered so far.
pub proof fn lemma_chunk_reports_latest_usage(
    st: StreamView,
    line: Seq<char>,
    f: ChunkFieldsView,
)
    requires
        starts_with(line, "data:"@),
        payload_of(line) != "[DONE]"@,
    ensures
        ({
            let (n, step) = line_effect(st, line, false, Some(f));
            &&& step == StreamStep::Continue
            &&& f.usage matches Some((p, c)) ==> n.usage == Some(
                Usage {
                    prompt_tokens: match p {
                        Some(v) => v,
                        None => 0u64,
                    },
                    completion_tokens: match c {
                        Some(v) => v,
                        None => 0u64,
                    },
                },
            )
            &&& f.usage is None ==> n.usage == st.usage
            &&& n.content == match f.delta {
                Some(d) => st.content + d,
                None => st.content,
            }
            &&& !st.interrupted ==> !n.interrupted
        }),
{
    if let Some(d) = f.delta {
        if d.len() == 0 {
            assert(st.content + d =~= st.content);
        }
    }
}

} // verus!
