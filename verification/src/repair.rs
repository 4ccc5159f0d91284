//! The loop that repairs a stream: what comes from upstream, what goes to the client, and when
//! the stream is over.
use crate::clock::{is_stamp, local_stamp, Duration};
use crate::decimal::{decimal, decimal_text};
use crate::log_lines::{opt_nat, opt_span, Outcome};
use crate::logger::{begin, error_run, finish_run, progress_run, run, Effect, EffectView, Run};
use crate::state::{
    cleanup_stream_to, lemma_total_with, lemma_total_without, refresh_run, spinner, spinner_frame,
    status_text, stream_status_text, AppState, AppView, SPINNER_FRAMES,
};
use crate::stream::{
    drain_state, error_frame_text, frame_lines, framed, fresh, is_done, leftover_report, push_lines,
    push_state, NormalizerView, SseNormalizer,
};
use crate::table::total;
use crate::utf8::text_in;
use vstd::prelude::*;
use vstd::utf8::encode_utf8;

verus! {

/// The span after which the first sign of life of a stream is due.
pub const FIRST_REPORT: u128 = 1_000_000_000;

/// The span after which another one is due.
pub const NEXT_REPORT: u128 = 3_000_000_000;

/// The bytes after which one is due in any case.
pub const REPORT_BYTES: u64 = 262_144;

/// What happens to the upstream side of a stream.
pub enum Event<'a> {
    /// Nothing came for longer than a stream may be idle.
    Idle,
    /// A chunk came.
    Chunk(&'a [u8]),
    /// Reading failed with the given error.
    Failed(&'a str),
    /// Upstream closed the stream.
    End,
}

/// The model of [`Event`].
pub enum EventView {
    Idle,
    Chunk(Seq<u8>),
    Failed(Seq<char>),
    End,
}

impl<'a> View for Event<'a> {
    type V = EventView;

    open spec fn view(&self) -> EventView {
        match self {
            Event::Idle => EventView::Idle,
            Event::Chunk(bytes) => EventView::Chunk(bytes@),
            Event::Failed(error) => EventView::Failed(error@),
            Event::End => EventView::End,
        }
    }
}

/// What is done on the client side of a stream.
pub enum Action {
    /// Wait for the next event.
    Wait,
    /// Send the bytes.
    Send(Vec<u8>),
    /// Close the stream.
    Close,
}

/// The model of [`Action`].
pub enum ActionView {
    Wait,
    Send(Seq<u8>),
    Close,
}

impl View for Action {
    type V = ActionView;

    open spec fn view(&self) -> ActionView {
        match self {
            Action::Wait => ActionView::Wait,
            Action::Send(bytes) => ActionView::Send(bytes@),
            Action::Close => ActionView::Close,
        }
    }
}

/// A stream that is being repaired.
pub struct StreamState {
    norm: SseNormalizer,
    done: bool,
    finished: bool,
    first_chunk_at: Option<Duration>,
    opened_at: Duration,
    reported_at: Option<Duration>,
    reported_bytes: u64,
    tick: usize,
    streamed: u64,
    req_id: String,
    idle: u64,
    status: u16,
    req_bytes: u64,
}

/// The model of [`StreamState`]. All times are counted from the start of the request, in
/// nanoseconds.
#[verifier::ext_equal]
pub struct StreamView {
    /// The normalizer.
    pub norm: NormalizerView,
    /// Whether the stream is over: `[DONE]` came, or it was broken off.
    pub done: bool,
    /// Whether the end of the request was logged.
    pub finished: bool,
    /// When the first chunk came.
    pub first_chunk_at: Option<nat>,
    /// When the answer began.
    pub opened_at: nat,
    /// When the last sign of life was logged, if one was.
    pub reported_at: Option<nat>,
    /// How many bytes had come then.
    pub reported_bytes: u64,
    /// The frame of the spinner.
    pub tick: usize,
    /// How many bytes have come.
    pub streamed: u64,
    /// The id of the request.
    pub req_id: Seq<char>,
    /// After how many seconds without data the stream is given up; 0 for never.
    pub idle: u64,
    /// The status of the answer.
    pub status: u16,
    /// The size of the body of the request.
    pub req_bytes: u64,
}

impl View for StreamState {
    type V = StreamView;

    closed spec fn view(&self) -> StreamView {
        StreamView {
            norm: self.norm@,
            done: self.done,
            finished: self.finished,
            first_chunk_at: opt_span(self.first_chunk_at),
            opened_at: self.opened_at@,
            reported_at: opt_span(self.reported_at),
            reported_bytes: self.reported_bytes,
            tick: self.tick,
            streamed: self.streamed,
            req_id: self.req_id@,
            idle: self.idle,
            status: self.status,
            req_bytes: self.req_bytes,
        }
    }
}

/// Whether a sign of life is due: the first one second into the answer, the next three seconds
/// after the last; or after a quarter of a megabyte.
pub open spec fn report_due(s: StreamView, at: nat, streamed: nat) -> bool {
    ||| streamed - s.reported_bytes >= REPORT_BYTES
    ||| match s.reported_at {
        None => at >= s.opened_at + FIRST_REPORT,
        Some(last) => at >= last + NEXT_REPORT,
    }
}

/// How the request of a stream ended.
pub open spec fn stream_outcome(
    s: StreamView,
    status: nat,
    ok: bool,
    at: nat,
    detail: Seq<char>,
) -> Outcome {
    Outcome {
        status,
        ok,
        elapsed: Some(at),
        first_byte: s.first_chunk_at,
        tokens: opt_nat(s.norm.usage_tokens),
        req_bytes: Some(s.req_bytes as nat),
        bytes: Some(s.streamed as nat),
        detail,
    }
}

/// A stream, the shared state and the log after an event, and what is done.
#[verifier::ext_equal]
pub struct Turn {
    pub stream: StreamView,
    pub app: AppView,
    pub effects: Seq<EffectView>,
    pub action: ActionView,
}

/// The tag in front of a message about a request.
pub open spec fn tagged(id: Seq<char>, msg: Seq<char>) -> Seq<char> {
    "["@ + id + "] "@ + msg
}

/// The message about a stream that was idle for too long.
pub open spec fn idle_message(idle: nat) -> Seq<char> {
    "读空闲 "@ + decimal(idle) + "s 无数据，主动中止上游（疑似链路静默断开）"@
}

/// The end of a stream: the end of its request is logged, and it is open no longer. `r` is the
/// log so far.
pub open spec fn closing(
    s: StreamView,
    app: AppView,
    r: Run,
    stamp: Seq<char>,
    at: nat,
    status: nat,
    ok: bool,
    detail: Seq<char>,
    action: ActionView,
) -> Turn {
    let active = app.active_streams.remove(s.req_id);
    let f = refresh_run(
        finish_run(r, stamp, s.req_id, stream_outcome(s, status, ok, at, detail)),
        active,
    );
    Turn {
        stream: StreamView { done: true, finished: true, ..s },
        app: AppView { logger: f.state, active_streams: active, ..app },
        effects: f.effects,
        action,
    }
}

/// Nothing came for too long: the stream is given up, and the client is told.
#[verifier::opaque]
pub open spec fn idle_turn(s: StreamView, app: AppView, stamp: Seq<char>, at: nat) -> Turn {
    let m = idle_message(s.idle as nat);
    closing(
        StreamView { norm: drain_state(s.norm), ..s },
        AppView { total_dropped: app.total_dropped.wrapping_add(1), ..app },
        error_run(begin(app.logger), stamp, tagged(s.req_id, m)),
        stamp,
        at,
        504,
        false,
        "读空闲中止"@,
        ActionView::Send(encode_utf8(error_frame_text(m))),
    )
}

/// The bytes of a chunk are counted, and a sign of life is logged where one is due.
pub open spec fn counted(s: StreamView, app: AppView, stamp: Seq<char>, at: nat, len: nat) -> Turn {
    let streamed = (s.streamed + len) as u64;
    let active = app.active_streams.insert(s.req_id, streamed);
    let tick = ((s.tick + 1) % SPINNER_FRAMES as int) as usize;
    let heard = StreamView {
        first_chunk_at: match s.first_chunk_at {
            Some(t) => Some(t),
            None => Some(at),
        },
        streamed,
        ..s
    };
    if report_due(s, at, streamed as nat) {
        let r = progress_run(
            begin(app.logger),
            stamp,
            s.req_id,
            streamed as nat,
            status_text(active, s.req_id, spinner()[tick as int]),
        );
        Turn {
            stream: StreamView { tick, reported_at: Some(at), reported_bytes: streamed, ..heard },
            app: AppView { logger: r.state, active_streams: active, ..app },
            effects: r.effects,
            action: ActionView::Wait,
        }
    } else {
        Turn {
            stream: heard,
            app: AppView { active_streams: active, ..app },
            effects: seq![],
            action: ActionView::Wait,
        }
    }
}

/// What is done with the lines that a chunk brought out.
pub open spec fn sending(lines: Seq<Seq<char>>) -> ActionView {
    if lines.len() == 0 {
        ActionView::Wait
    } else {
        ActionView::Send(encode_utf8(framed(lines)))
    }
}

/// A chunk came: its lines are sent on. `[DONE]` ends the stream.
#[verifier::opaque]
pub open spec fn chunk_turn(
    s: StreamView,
    app: AppView,
    stamp: Seq<char>,
    at: nat,
    chunk: Seq<u8>,
) -> Turn {
    let c = counted(s, app, stamp, at, chunk.len());
    let heard = StreamView { norm: push_state(s.norm, chunk), ..c.stream };
    let action = sending(push_lines(s.norm, chunk));
    if heard.norm.done_seen {
        closing(
            heard,
            c.app,
            run(c.app.logger, c.effects),
            stamp,
            at,
            s.status as nat,
            true,
            ""@,
            action,
        )
    } else {
        Turn { stream: heard, action, ..c }
    }
}

/// The message about a stream that could not be read on.
pub open spec fn failed_message(error: Seq<char>) -> Seq<char> {
    "上游流错误: "@ + error
}

/// Reading failed: the stream is given up, and the client is told.
#[verifier::opaque]
pub open spec fn failed_turn(
    s: StreamView,
    app: AppView,
    stamp: Seq<char>,
    at: nat,
    error: Seq<char>,
) -> Turn {
    let m = failed_message(error);
    closing(
        StreamView { norm: drain_state(s.norm), ..s },
        app,
        error_run(begin(app.logger), stamp, tagged(s.req_id, m)),
        stamp,
        at,
        s.status as nat,
        false,
        "上游流错误"@,
        ActionView::Send(encode_utf8(error_frame_text(m))),
    )
}

/// Upstream closed the stream. What is left in the buffer is half a frame: it is dropped, and
/// the client is told, unless `[DONE]` had come.
#[verifier::opaque]
pub open spec fn end_turn(s: StreamView, app: AppView, stamp: Seq<char>, at: nat) -> Turn {
    let over = StreamView { norm: drain_state(s.norm), ..s };
    if s.norm.buffer.len() > 0 {
        closing(
            over,
            AppView { total_dropped: app.total_dropped.wrapping_add(1), ..app },
            error_run(
                begin(app.logger),
                stamp,
                tagged(s.req_id, leftover_report(text_in(s.norm.buffer))),
            ),
            stamp,
            at,
            s.status as nat,
            false,
            "上游异常切断"@,
            if s.norm.done_seen {
                ActionView::Close
            } else {
                ActionView::Send(
                    encode_utf8(error_frame_text("upstream stream terminated prematurely"@)),
                )
            },
        )
    } else {
        closing(
            over,
            app,
            begin(app.logger),
            stamp,
            at,
            s.status as nat,
            s.norm.done_seen,
            ""@,
            ActionView::Close,
        )
    }
}

/// What an event does. A stream that is over stays closed.
pub open spec fn turn(
    s: StreamView,
    app: AppView,
    stamp: Seq<char>,
    at: nat,
    event: EventView,
) -> Turn {
    if s.done {
        Turn { stream: s, app, effects: seq![], action: ActionView::Close }
    } else {
        match event {
            EventView::Idle => idle_turn(s, app, stamp, at),
            EventView::Chunk(chunk) => chunk_turn(s, app, stamp, at, chunk),
            EventView::Failed(error) => failed_turn(s, app, stamp, at, error),
            EventView::End => end_turn(s, app, stamp, at),
        }
    }
}

/// A stream that has just been opened.
pub open spec fn opened(
    id: Seq<char>,
    status: u16,
    req_bytes: u64,
    idle: u64,
    at: nat,
) -> StreamView {
    StreamView {
        norm: fresh(),
        done: false,
        finished: false,
        first_chunk_at: None,
        opened_at: at,
        reported_at: None,
        reported_bytes: 0,
        tick: 0,
        streamed: 0,
        req_id: id,
        idle,
        status,
        req_bytes,
    }
}

/// Puts a tag in front of a message.
fn tag(req_id: &str, msg: &str) -> (r: String)
    ensures
        r@ == tagged(req_id@, msg@),
{
    let mut out = "[".to_owned();
    out.append(req_id);
    out.append("] ");
    out.append(msg);
    out
}

/// Whether every counter can take an event.
pub open spec fn room(s: StreamView, app: AppView, event: EventView) -> bool {
    match event {
        EventView::Chunk(chunk) => {
            &&& s.norm.emitted + s.norm.buffer.len() + chunk.len() <= u64::MAX
            &&& s.norm.dropped + s.norm.buffer.len() + chunk.len() <= u64::MAX
            &&& s.norm.rejoined < u64::MAX
            &&& total(app.active_streams) + s.streamed + chunk.len() <= u64::MAX
        },
        _ => s.norm.buffer.len() > 0 ==> s.norm.dropped < u64::MAX,
    }
}

impl StreamState {
    /// The invariant.
    pub closed spec fn wf(&self) -> bool {
        self.reported_bytes <= self.streamed && self.tick < SPINNER_FRAMES
    }

    /// Opens a stream, `at` after the start of its request.
    pub fn open(app: &mut AppState, req_id: &str, status: u16, req_bytes: u64, at: Duration) -> (r:
        Self)
        requires
            old(app).wf(),
        ensures
            final(app).wf(),
            r.wf(),
            r@ == opened(req_id@, status, req_bytes, old(app).idle_secs, at@),
            !r@.done && !r@.finished && !r@.norm.done_seen,
            r@.norm.buffer.len() == 0 && r@.norm.usage_tokens is None,
            r@.norm.emitted == 0 && r@.norm.dropped == 0 && r@.norm.rejoined == 0,
            r@.streamed == 0 && r@.reported_bytes == 0,
            r@.first_chunk_at is None && r@.reported_at is None,
            r@.opened_at == at@,
            r@.req_id == req_id@ && r@.status == status && r@.req_bytes == req_bytes,
            r@.idle == old(app).idle_secs,
            final(app)@ == (AppView {
                active_streams: old(app)@.active_streams.insert(req_id@, 0),
                ..old(app)@
            }),
    {
        proof {
            lemma_total_with(app.active_streams@, req_id@, 0);
        }
        app.active_streams.insert(req_id, 0);
        StreamState {
            norm: SseNormalizer::new(),
            done: false,
            finished: false,
            first_chunk_at: None,
            opened_at: at,
            reported_at: None,
            reported_bytes: 0,
            tick: 0,
            streamed: 0,
            req_id: req_id.to_owned(),
            idle: app.idle_secs,
            status,
            req_bytes,
        }
    }

    /// Whether the stream is over.
    pub fn is_done(&self) -> (r: bool)
        ensures
            r == self@.done,
    {
        self.done
    }

    /// Whether the end of the request was logged.
    pub fn is_finished(&self) -> (r: bool)
        ensures
            r == self@.finished,
    {
        self.finished
    }

    /// Whether every counter can take an event.
    pub fn has_room(&self, app: &AppState, event: &Event) -> (r: bool)
        requires
            app.wf(),
        ensures
            r == room(self@, app@, event@),
    {
        let buffer: u128 = self.norm.buffer.len() as u128;
        let max: u128 = u64::MAX as u128;
        match event {
            Event::Chunk(chunk) => {
                let more: u128 = chunk.len() as u128;
                let sum: u128 = app.active_streams.sum() as u128;
                self.norm.emitted as u128 + buffer + more <= max && self.norm.dropped as u128
                    + buffer + more <= max && self.norm.rejoined < u64::MAX && sum
                    + self.streamed as u128 + more <= max
            },
            _ => self.norm.buffer.len() == 0 || self.norm.dropped < u64::MAX,
        }
    }

    /// Logs the end of the request, and takes the stream out of the table.
    fn close(
        &mut self,
        app: &mut AppState,
        out: &mut Vec<Effect>,
        stamp: &str,
        at: Duration,
        status: u16,
        ok: bool,
        detail: &str,
    )
        requires
            old(self).wf(),
            old(app).wf(),
        ensures
            final(self).wf(),
            final(app).wf(),
            ({
                let t = closing(
                    old(self)@,
                    old(app)@,
                    run(old(app)@.logger, old(out).deep_view()),
                    stamp@,
                    at@,
                    status as nat,
                    ok,
                    detail@,
                    ActionView::Wait,
                );
                &&& final(self)@ == t.stream
                &&& final(app)@ == t.app
                &&& final(out).deep_view() == t.effects
            }),
    {
        app.logger.finish_request_at(
            out,
            stamp,
            self.req_id.as_str(),
            status,
            ok,
            Some(at),
            self.first_chunk_at,
            self.norm.usage_tokens,
            Some(self.req_bytes),
            Some(self.streamed),
            detail,
        );
        proof {
            lemma_total_without(app.active_streams@, self.req_id@);
        }
        cleanup_stream_to(&mut app.logger, out, &mut app.active_streams, self.req_id.as_str());
        self.done = true;
        self.finished = true;
    }

    fn idle_step(
        &mut self,
        app: &mut AppState,
        out: &mut Vec<Effect>,
        stamp: &str,
        at: Duration,
    ) -> (r: Action)
        requires
            old(self).wf(),
            old(app).wf(),
            room(old(self)@, old(app)@, EventView::Idle),
            old(out)@.len() == 0,
        ensures
            final(self).wf(),
            final(app).wf(),
            ({
                let t = idle_turn(old(self)@, old(app)@, stamp@, at@);
                &&& final(self)@ == t.stream
                &&& final(app)@ == t.app
                &&& final(out).deep_view() == t.effects
                &&& r@ == t.action
            }),
    {
        reveal(idle_turn);
        assert(out.deep_view() =~= Seq::<EffectView>::empty());
        let mut m = "读空闲 ".to_owned();
        m.append(decimal_text(self.idle as u128).as_str());
        m.append("s 无数据，主动中止上游（疑似链路静默断开）");
        let line = tag(self.req_id.as_str(), m.as_str());
        app.logger.error_at(out, stamp, line.as_str());
        let _ = self.norm.drain_abrupt();
        app.total_dropped = app.total_dropped.wrapping_add(1);
        let frame = self.norm.error_frame(m.as_str());
        self.close(app, out, stamp, at, 504, false, "读空闲中止");
        Action::Send(frame)
    }

    fn count(
        &mut self,
        app: &mut AppState,
        out: &mut Vec<Effect>,
        stamp: &str,
        at: Duration,
        len: usize,
    )
        requires
            old(self).wf(),
            old(app).wf(),
            total(old(app)@.active_streams) + old(self)@.streamed + len <= u64::MAX,
            old(out)@.len() == 0,
        ensures
            final(self).wf(),
            final(app).wf(),
            ({
                let t = counted(old(self)@, old(app)@, stamp@, at@, len as nat);
                &&& final(self)@ == t.stream
                &&& final(app)@ == t.app
                &&& final(out).deep_view() == t.effects
            }),
    {
        assert(out.deep_view() =~= Seq::<EffectView>::empty());
        let ghost before = self@;
        if self.first_chunk_at.is_none() {
            self.first_chunk_at = Some(at);
        }
        self.streamed = self.streamed + len as u64;
        proof {
            lemma_total_with(app.active_streams@, self.req_id@, self.streamed);
        }
        app.active_streams.insert(self.req_id.as_str(), self.streamed);
        let waited = match self.reported_at {
            None => at.as_nanos() >= self.opened_at.as_nanos() + FIRST_REPORT,
            Some(last) => at.as_nanos() >= last.as_nanos() + NEXT_REPORT,
        };
        let due = waited || self.streamed - self.reported_bytes >= REPORT_BYTES;
        assert(due == report_due(before, at@, self.streamed as nat));
        if due {
            self.tick = (self.tick + 1) % SPINNER_FRAMES;
            let text = stream_status_text(
                &app.active_streams,
                self.req_id.as_str(),
                spinner_frame(self.tick),
            );
            app.logger.progress_at(
                out,
                stamp,
                self.req_id.as_str(),
                self.streamed,
                text.as_str(),
            );
            self.reported_at = Some(at);
            self.reported_bytes = self.streamed;
        }
    }

    fn chunk_step(
        &mut self,
        app: &mut AppState,
        out: &mut Vec<Effect>,
        stamp: &str,
        at: Duration,
        chunk: &[u8],
    ) -> (r: Action)
        requires
            old(self).wf(),
            old(app).wf(),
            room(old(self)@, old(app)@, EventView::Chunk(chunk@)),
            old(out)@.len() == 0,
        ensures
            final(self).wf(),
            final(app).wf(),
            ({
                let t = chunk_turn(old(self)@, old(app)@, stamp@, at@, chunk@);
                &&& final(self)@ == t.stream
                &&& final(app)@ == t.app
                &&& final(out).deep_view() == t.effects
                &&& r@ == t.action
            }),
    {
        reveal(chunk_turn);
        self.count(app, out, stamp, at, chunk.len());
        let lines = self.norm.push(chunk);
        if self.norm.done_seen {
            let status = self.status;
            self.close(app, out, stamp, at, status, true, "");
        }
        assert(lines.deep_view().len() == lines@.len());
        if lines.len() == 0 {
            Action::Wait
        } else {
            Action::Send(frame_lines(&lines))
        }
    }

    fn failed_step(
        &mut self,
        app: &mut AppState,
        out: &mut Vec<Effect>,
        stamp: &str,
        at: Duration,
        error: &str,
    ) -> (r: Action)
        requires
            old(self).wf(),
            old(app).wf(),
            room(old(self)@, old(app)@, EventView::Failed(error@)),
            old(out)@.len() == 0,
        ensures
            final(self).wf(),
            final(app).wf(),
            ({
                let t = failed_turn(old(self)@, old(app)@, stamp@, at@, error@);
                &&& final(self)@ == t.stream
                &&& final(app)@ == t.app
                &&& final(out).deep_view() == t.effects
                &&& r@ == t.action
            }),
    {
        reveal(failed_turn);
        assert(out.deep_view() =~= Seq::<EffectView>::empty());
        let mut m = "上游流错误: ".to_owned();
        m.append(error);
        let line = tag(self.req_id.as_str(), m.as_str());
        app.logger.error_at(out, stamp, line.as_str());
        let _ = self.norm.drain_abrupt();
        let frame = self.norm.error_frame(m.as_str());
        let status = self.status;
        self.close(app, out, stamp, at, status, false, "上游流错误");
        Action::Send(frame)
    }

    fn end_step(
        &mut self,
        app: &mut AppState,
        out: &mut Vec<Effect>,
        stamp: &str,
        at: Duration,
    ) -> (r: Action)
        requires
            old(self).wf(),
            old(app).wf(),
            room(old(self)@, old(app)@, EventView::End),
            old(out)@.len() == 0,
        ensures
            final(self).wf(),
            final(app).wf(),
            ({
                let t = end_turn(old(self)@, old(app)@, stamp@, at@);
                &&& final(self)@ == t.stream
                &&& final(app)@ == t.app
                &&& final(out).deep_view() == t.effects
                &&& r@ == t.action
            }),
    {
        reveal(end_turn);
        assert(out.deep_view() =~= Seq::<EffectView>::empty());
        let info = self.norm.drain_abrupt();
        let cut = info.is_some();
        if let Some(m) = info {
            let line = tag(self.req_id.as_str(), m.as_str());
            app.logger.error_at(out, stamp, line.as_str());
            app.total_dropped = app.total_dropped.wrapping_add(1);
        }
        let done_seen = self.norm.done_seen;
        let status = self.status;
        let detail = if cut {
            "上游异常切断"
        } else {
            ""
        };
        self.close(app, out, stamp, at, status, done_seen && !cut, detail);
        if cut && !done_seen {
            Action::Send(self.norm.error_frame("upstream stream terminated prematurely"))
        } else {
            Action::Close
        }
    }

    /// Takes in an event, `at` after the start of the request, and says what is done.
    pub fn step_at(&mut self, app: &mut AppState, stamp: &str, at: Duration, event: Event) -> (r: (
        Action,
        Vec<Effect>,
    ))
        requires
            old(self).wf(),
            old(app).wf(),
            room(old(self)@, old(app)@, event@),
        ensures
            final(self).wf(),
            final(app).wf(),
            ({
                let t = turn(old(self)@, old(app)@, stamp@, at@, event@);
                &&& final(self)@ == t.stream
                &&& final(app)@ == t.app
                &&& r.0@ == t.action
                &&& r.1.deep_view() == t.effects
            }),
    {
        let mut out: Vec<Effect> = Vec::new();
        assert(out.deep_view() =~= Seq::<EffectView>::empty());
        if self.done {
            return (Action::Close, out);
        }
        let action = match event {
            Event::Idle => self.idle_step(app, &mut out, stamp, at),
            Event::Chunk(chunk) => self.chunk_step(app, &mut out, stamp, at, chunk),
            Event::Failed(error) => self.failed_step(app, &mut out, stamp, at, error),
            Event::End => self.end_step(app, &mut out, stamp, at),
        };
        (action, out)
    }

    /// Takes in an event at the present time.
    pub fn step(&mut self, app: &mut AppState, at: Duration, event: Event) -> (r: (
        Action,
        Vec<Effect>,
    ))
        requires
            old(self).wf(),
            old(app).wf(),
            room(old(self)@, old(app)@, event@),
        ensures
            final(self).wf(),
            final(app).wf(),
            exists|stamp: Seq<char>| #[trigger]
                is_stamp(stamp) && ({
                    let t = turn(old(self)@, old(app)@, stamp, at@, event@);
                    &&& final(self)@ == t.stream
                    &&& final(app)@ == t.app
                    &&& r.0@ == t.action
                    &&& r.1.deep_view() == t.effects
                }),
    {
        let stamp = local_stamp();
        self.step_at(app, stamp.as_str(), at, event)
    }
}

} // verus!
