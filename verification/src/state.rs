//! The state that all requests share, and the status line that tells of the open streams.
use crate::clock::{is_stamp, local_stamp};
use crate::decimal::{decimal, decimal_text};
use crate::format::{bytes_text, fmt_bytes};
use crate::logger::{begin, erased, run, show_status, Effect, EffectView, Logger, LoggerView, Run};
use crate::table::{total, Table};
use crate::text::{center, centered, stands_in, starts_with};
use vstd::prelude::*;

verus! {

/// The number of frames of the spinner.
pub const SPINNER_FRAMES: usize = 8;

/// The frames of the spinner in the status line.
pub open spec fn spinner() -> Seq<char> {
    seq!['⠋', '⠙', '⠹', '⠸', '⠼', '⠴', '⠦', '⠧']
}

/// A frame of the spinner.
pub fn spinner_frame(tick: usize) -> (r: char)
    ensures
        r == spinner()[(tick % SPINNER_FRAMES) as int],
        r == "⠋⠙⠹⠸⠼⠴⠦⠧"@[(tick % 8) as int],
{
    proof {
        reveal_strlit("⠋⠙⠹⠸⠼⠴⠦⠧");
    }
    let frame: usize = tick % SPINNER_FRAMES;
    if frame == 0 {
        '⠋'
    } else if frame == 1 {
        '⠙'
    } else if frame == 2 {
        '⠹'
    } else if frame == 3 {
        '⠸'
    } else if frame == 4 {
        '⠼'
    } else if frame == 5 {
        '⠴'
    } else if frame == 6 {
        '⠦'
    } else {
        '⠧'
    }
}

/// The settings and the counters that all requests share.
pub struct AppState {
    /// The base address of the upstream service.
    pub upstream: String,
    /// The log.
    pub logger: Logger,
    /// How many requests are under way.
    pub inflight: u64,
    /// How many requests have come in.
    pub total_requests: u64,
    /// How many streams upstream has broken off.
    pub total_dropped: u64,
    /// After how many seconds without data a stream is given up; 0 for never.
    pub idle_secs: u64,
    /// The token that clients must show; empty for none.
    pub auth_token: String,
    /// The open streams, and how many bytes each has received.
    pub active_streams: Table<u64>,
}

/// The model of [`AppState`].
#[verifier::ext_equal]
pub struct AppView {
    pub upstream: Seq<char>,
    pub logger: LoggerView,
    pub inflight: u64,
    pub total_requests: u64,
    pub total_dropped: u64,
    pub idle_secs: u64,
    pub auth_token: Seq<char>,
    pub active_streams: Map<Seq<char>, u64>,
}

impl View for AppState {
    type V = AppView;

    open spec fn view(&self) -> AppView {
        AppView {
            upstream: self.upstream@,
            logger: self.logger@,
            inflight: self.inflight,
            total_requests: self.total_requests,
            total_dropped: self.total_dropped,
            idle_secs: self.idle_secs,
            auth_token: self.auth_token@,
            active_streams: self.active_streams@,
        }
    }
}

impl AppState {
    /// The invariant: the log is well formed, and the bytes of all open streams can be counted.
    pub open spec fn wf(&self) -> bool {
        &&& self.logger.wf()
        &&& self.active_streams@.dom().finite()
        &&& total(self.active_streams@) <= u64::MAX
    }

    /// The state at the start of the service.
    pub fn new(upstream: &str, logger: Logger, idle_secs: u64, auth_token: &str) -> (r: Self)
        requires
            logger.wf(),
        ensures
            r.wf(),
            r@ == (AppView {
                upstream: upstream@,
                logger: logger@,
                inflight: 0,
                total_requests: 0,
                total_dropped: 0,
                idle_secs,
                auth_token: auth_token@,
                active_streams: Map::empty(),
            }),
    {
        AppState {
            upstream: upstream.to_owned(),
            logger,
            inflight: 0,
            total_requests: 0,
            total_dropped: 0,
            idle_secs,
            auth_token: auth_token.to_owned(),
            active_streams: Table::new(),
        }
    }
}

// ---------------------------------------------------------------------------
// The status line
// ---------------------------------------------------------------------------

/// The text of the status line: the id and the bytes of a single stream, or the number and the
/// bytes of several.
pub open spec fn status_text(streams: Map<Seq<char>, u64>, single_id: Seq<char>, frame: char) -> Seq<
    char,
> {
    if streams.len() <= 1 {
        "\x1b[36m"@ + seq![frame] + "\x1b[0m \x1b[1;36m["@ + center(single_id, 6)
            + "]\x1b[0m \x1b[34m↓\x1b[0m \x1b[2m"@ + bytes_text(total(streams)) + "…\x1b[0m"@
    } else {
        "\x1b[36m"@ + seq![frame] + "\x1b[0m \x1b[2m"@ + decimal(streams.len()) + " 个流 · ↓ "@
            + bytes_text(total(streams)) + "…\x1b[0m"@
    }
}

/// The text of the status line.
pub fn stream_status_text(streams: &Table<u64>, single_id: &str, frame: char) -> (r: String)
    requires
        total(streams@) <= u64::MAX,
    ensures
        r@ == status_text(streams@, single_id@, frame),
{
    let sum = streams.sum();
    let mut out = "\x1b[36m".to_owned();
    let ghost before = out@;
    out.push(frame);
    assert(out@ =~= before + seq![frame]);
    if streams.len() <= 1 {
        out.append("\x1b[0m \x1b[1;36m[");
        out.append(centered(single_id, 6).as_str());
        out.append("]\x1b[0m \x1b[34m↓\x1b[0m \x1b[2m");
    } else {
        out.append("\x1b[0m \x1b[2m");
        out.append(decimal_text(streams.len() as u128).as_str());
        out.append(" 个流 · ↓ ");
    }
    out.append(fmt_bytes(sum).as_str());
    out.append("…\x1b[0m");
    out
}

/// Redraws the status line for the open streams, or clears it where there are none.
pub open spec fn refresh_run(r: Run, streams: Map<Seq<char>, u64>) -> Run {
    if streams.len() == 0 {
        erased(r)
    } else {
        show_status(r, status_text(streams, ""@, '⠹'))
    }
}

/// Redraws the status line after a line was printed, so that nothing of it is left over and
/// nothing is lost.
pub fn refresh_status_to(logger: &mut Logger, out: &mut Vec<Effect>, streams: &Table<u64>)
    requires
        old(logger).wf(),
        total(streams@) <= u64::MAX,
    ensures
        final(logger).wf(),
        run(final(logger)@, final(out).deep_view()) == refresh_run(
            run(old(logger)@, old(out).deep_view()),
            streams@,
        ),
{
    if streams.len() == 0 {
        logger.clear_status_to(out);
    } else {
        let text = stream_status_text(streams, "", '⠹');
        logger.update_status_to(out, text.as_str());
    }
}

/// Redraws the status line after a line was printed.
pub fn refresh_status(logger: &mut Logger, streams: &Table<u64>) -> (r: Vec<Effect>)
    requires
        old(logger).wf(),
        total(streams@) <= u64::MAX,
    ensures
        final(logger).wf(),
        run(final(logger)@, r.deep_view()) == refresh_run(begin(old(logger)@), streams@),
{
    let mut out: Vec<Effect> = Vec::new();
    assert(out.deep_view() =~= Seq::<EffectView>::empty());
    refresh_status_to(logger, &mut out, streams);
    out
}

/// Takes a stream that has ended out of the table, and redraws the status line.
pub fn cleanup_stream_to(
    logger: &mut Logger,
    out: &mut Vec<Effect>,
    streams: &mut Table<u64>,
    req_id: &str,
)
    requires
        old(logger).wf(),
        total(old(streams)@) <= u64::MAX,
    ensures
        final(logger).wf(),
        final(streams)@ == old(streams)@.remove(req_id@),
        total(final(streams)@) <= total(old(streams)@),
        run(final(logger)@, final(out).deep_view()) == refresh_run(
            run(old(logger)@, old(out).deep_view()),
            old(streams)@.remove(req_id@),
        ),
{
    let _ = streams.remove(req_id);
    proof {
        lemma_total_without(old(streams)@, req_id@);
    }
    refresh_status_to(logger, out, streams);
}

/// Takes a stream that has ended out of the table, and redraws the status line.
pub fn cleanup_stream(logger: &mut Logger, streams: &mut Table<u64>, req_id: &str) -> (r: Vec<
    Effect,
>)
    requires
        old(logger).wf(),
        total(old(streams)@) <= u64::MAX,
    ensures
        final(logger).wf(),
        final(streams)@ == old(streams)@.remove(req_id@),
        run(final(logger)@, r.deep_view()) == refresh_run(
            begin(old(logger)@),
            old(streams)@.remove(req_id@),
        ),
{
    let mut out: Vec<Effect> = Vec::new();
    assert(out.deep_view() =~= Seq::<EffectView>::empty());
    cleanup_stream_to(logger, &mut out, streams, req_id);
    out
}

/// Taking an entry out does not make the sum greater.
pub proof fn lemma_total_without(streams: Map<Seq<char>, u64>, id: Seq<char>)
    requires
        streams.dom().finite(),
    ensures
        total(streams.remove(id)) <= total(streams),
        streams.remove(id).dom().finite(),
{
    if streams.contains_key(id) {
        crate::table::lemma_total(streams, id);
    } else {
        assert(streams.remove(id) =~= streams);
    }
}

/// Setting an entry adds at most its number to the sum.
pub proof fn lemma_total_with(streams: Map<Seq<char>, u64>, id: Seq<char>, n: u64)
    requires
        streams.dom().finite(),
    ensures
        total(streams.insert(id, n)) <= total(streams) + n,
        streams.insert(id, n).dom().finite(),
{
    let after = streams.insert(id, n);
    crate::table::lemma_total(after, id);
    assert(after.remove(id) =~= streams.remove(id));
    lemma_total_without(streams, id);
}

// ---------------------------------------------------------------------------
// The end of a body
// ---------------------------------------------------------------------------

/// Watches the body of an answer: whether its stream had ended when the body went away.
pub struct NotifyDrop {
    /// The id of the request.
    pub req_id: String,
    /// Whether the stream has ended.
    pub finished: bool,
}

/// What the end of a body does: where its stream had not ended, the client has gone away. In
/// any case the stream is open no longer.
pub open spec fn drop_run(app: AppView, stamp: Seq<char>, id: Seq<char>, finished: bool) -> Run {
    let r = if finished {
        begin(app.logger)
    } else {
        crate::logger::debug_run(
            begin(app.logger),
            stamp,
            "["@ + id
                + "] 客户端提前断开：body 被 cancel，上游请求已随之中止（取消透传生效）"@,
        )
    };
    refresh_run(r, app.active_streams.remove(id))
}

impl NotifyDrop {
    /// A watch on the body of a stream that is still open.
    pub fn new(req_id: &str) -> (r: Self)
        ensures
            r.req_id@ == req_id@,
            !r.finished,
    {
        NotifyDrop { req_id: req_id.to_owned(), finished: false }
    }

    /// Tells of the end of the body.
    pub fn on_drop_at(&self, app: &mut AppState, stamp: &str) -> (r: Vec<Effect>)
        requires
            old(app).wf(),
        ensures
            final(app).wf(),
            ({
                let d = drop_run(old(app)@, stamp@, self.req_id@, self.finished);
                &&& final(app)@ == (AppView {
                    logger: d.state,
                    active_streams: old(app)@.active_streams.remove(self.req_id@),
                    ..old(app)@
                })
                &&& r.deep_view() == d.effects
            }),
    {
        let mut out: Vec<Effect> = Vec::new();
        assert(out.deep_view() =~= Seq::<EffectView>::empty());
        if !self.finished {
            let mut msg = "[".to_owned();
            msg.append(self.req_id.as_str());
            msg.append("] 客户端提前断开：body 被 cancel，上游请求已随之中止（取消透传生效）");
            app.logger.debug_at(&mut out, stamp, msg.as_str());
        }
        proof {
            lemma_total_without(app.active_streams@, self.req_id@);
        }
        cleanup_stream_to(&mut app.logger, &mut out, &mut app.active_streams, self.req_id.as_str());
        out
    }

    /// Tells of the end of the body at the present time.
    pub fn on_drop(&self, app: &mut AppState) -> (r: Vec<Effect>)
        requires
            old(app).wf(),
        ensures
            final(app).wf(),
            exists|stamp: Seq<char>| #[trigger]
                is_stamp(stamp) && ({
                    let d = drop_run(old(app)@, stamp, self.req_id@, self.finished);
                    &&& final(app)@ == (AppView {
                        logger: d.state,
                        active_streams: old(app)@.active_streams.remove(self.req_id@),
                        ..old(app)@
                    })
                    &&& r.deep_view() == d.effects
                }),
    {
        let stamp = local_stamp();
        self.on_drop_at(app, stamp.as_str())
    }
}

// ---------------------------------------------------------------------------
// What the status line tells
// ---------------------------------------------------------------------------

/// The status line tells how many bytes the open streams have received together; where there are
/// several, how many there are, else the id of the one.
pub proof fn law_status_tells_the_streams(
    streams: Map<Seq<char>, u64>,
    single_id: Seq<char>,
    frame: char,
)
    ensures
        ({
            let s = status_text(streams, single_id, frame);
            &&& stands_in(bytes_text(total(streams)), s)
            &&& streams.len() > 1 ==> stands_in(decimal(streams.len()) + " 个流"@, s)
            &&& streams.len() <= 1 ==> stands_in(center(single_id, 6), s)
        }),
{
    reveal_strlit(" 个流");
    reveal_strlit(" 个流 · ↓ ");
    let s = status_text(streams, single_id, frame);
    let b = bytes_text(total(streams));
    let k = s.len() - "…\x1b[0m"@.len() - b.len();
    assert(s.subrange(k, k + b.len()) =~= b);
    if streams.len() > 1 {
        let p = decimal(streams.len()) + " 个流"@;
        let a = "\x1b[36m"@ + seq![frame] + "\x1b[0m \x1b[2m"@;
        assert(s.subrange(a.len() as int, a.len() as int + p.len()) =~= p);
    } else {
        let p = center(single_id, 6);
        let a = "\x1b[36m"@ + seq![frame] + "\x1b[0m \x1b[1;36m["@;
        assert(s.subrange(a.len() as int, a.len() as int + p.len()) =~= p);
    }
}

/// Where the body of an answer goes away, its stream is open no longer. That the client has gone
/// is noted only where the stream had not ended; in any case no request is summed up by it.
pub proof fn law_only_a_cut_off_client_is_noted(
    app: AppView,
    stamp: Seq<char>,
    id: Seq<char>,
    finished: bool,
)
    ensures
        drop_run(app, stamp, id, finished).state.summaries == app.logger.summaries,
        drop_run(app, stamp, id, finished).state.pending == app.logger.pending,
        finished ==> drop_run(app, stamp, id, finished).state.captured == app.logger.captured,
        !finished && app.logger.captured is Some && !app.logger.disabled && app.logger.level
            is Debug ==> drop_run(app, stamp, id, finished).state.captured == Some(
            app.logger.captured->0.push(
                "[DEBUG] ["@ + id
                    + "] 客户端提前断开：body 被 cancel，上游请求已随之中止（取消透传生效）"@,
            ),
        ),
{
    reveal_strlit("[");
    reveal_strlit("] ");
    reveal_strlit("DEBUG");
    reveal_strlit("[DEBUG] [");
    let end = "] 客户端提前断开：body 被 cancel，上游请求已随之中止（取消透传生效）"@;
    assert("["@ + "DEBUG"@ + "] "@ + ("["@ + id + end) =~= "[DEBUG] ["@ + id + end);
}

/// The status line is there as long as a stream is open and the terminal has colors; it tells how
/// much has been received on the streams that are open still.
pub proof fn law_status_is_there_while_streams_are_open(r: Run, streams: Map<Seq<char>, u64>)
    ensures
        ({
            let f = refresh_run(r, streams);
            let shows = r.state.color && !r.state.file_only;
            &&& streams.len() == 0 ==> !f.state.status_shown
            &&& streams.len() > 0 && shows ==> f.state.status_shown && f.effects.len()
                == r.effects.len() + 1 && (f.effects.last() matches EffectView::Print(p)
                && starts_with(p, "\r\x1b[2K"@) && stands_in(bytes_text(total(streams)), p))
            &&& streams.len() > 0 && !shows ==> f == r
            &&& f.state == (LoggerView { status_shown: f.state.status_shown, ..r.state })
        }),
{
    if streams.len() > 0 && r.state.color && !r.state.file_only {
        let text = status_text(streams, ""@, '⠹');
        let b = bytes_text(total(streams));
        law_status_tells_the_streams(streams, ""@, '⠹');
        let i = choose|i: int|
            0 <= i && i + b.len() <= text.len() && #[trigger] text.subrange(i, i + b.len()) == b;
        let p = "\r\x1b[2K"@ + text;
        let k = "\r\x1b[2K"@.len() + i;
        assert(p.subrange(k, k + b.len()) =~= text.subrange(i, i + b.len()));
        assert(p.take("\r\x1b[2K"@.len() as int) =~= "\r\x1b[2K"@);
    }
}

/// A stream whose body goes away is in the status line no longer.
pub proof fn law_closed_stream_is_shown_no_longer(
    app: AppView,
    stamp: Seq<char>,
    id: Seq<char>,
    finished: bool,
)
    ensures
        ({
            let f = drop_run(app, stamp, id, finished);
            let open = app.active_streams.remove(id);
            &&& open.len() == 0 ==> !f.state.status_shown
            &&& open.len() > 0 && app.logger.color && !app.logger.file_only ==> f.effects.len() > 0
                && (f.effects.last() matches EffectView::Print(p) && stands_in(
                bytes_text(total(open)),
                p,
            ))
        }),
{
    let note = "["@ + id + "] 客户端提前断开：body 被 cancel，上游请求已随之中止（取消透传生效）"@;
    let r = if finished {
        begin(app.logger)
    } else {
        crate::logger::debug_run(begin(app.logger), stamp, note)
    };
    law_status_is_there_while_streams_are_open(r, app.active_streams.remove(id));
}

} // verus!
