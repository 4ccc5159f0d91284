//! What holds of a repaired stream over any run of events.
use crate::clock::clock_text;
use crate::decimal::decimal;
use crate::log_lines::Outcome;
use crate::logger::{
    begin, debug_run, error_run, finish_run, progress_run, summary_line, with_summary, Run,
};
use crate::repair::{
    chunk_turn, closing, counted, end_turn, failed_message, failed_turn, idle_message, idle_turn,
    opened, report_due, sending, stream_outcome, turn, ActionView, EventView, StreamView, Turn,
};
use crate::state::{refresh_run, AppView};
use crate::stream::{error_frame_text, framed, push_lines, push_state};
use crate::stream_laws::{
    all_lines, joined, law_cuts_do_not_matter, law_done_goes_out_once, state_after,
};
use crate::text::{ends_with, stands_in};
use crate::utf8::lemma_encode_concat;
use vstd::prelude::*;
use vstd::utf8::encode_utf8;

verus! {

/// An event, and when it came.
pub struct Step {
    pub stamp: Seq<char>,
    pub at: nat,
    pub event: EventView,
}

/// What an event does.
pub open spec fn taken(s: StreamView, app: AppView, step: Step) -> Turn {
    turn(s, app, step.stamp, step.at, step.event)
}

/// A stream and the shared state after a run of events.
pub open spec fn stream_after(s: StreamView, app: AppView, steps: Seq<Step>) -> (
    StreamView,
    AppView,
)
    decreases steps.len(),
{
    if steps.len() == 0 {
        (s, app)
    } else {
        let t = taken(s, app, steps[0]);
        stream_after(t.stream, t.app, steps.skip(1))
    }
}

/// The bytes that go to the client over a run of events.
pub open spec fn sent(s: StreamView, app: AppView, steps: Seq<Step>) -> Seq<u8>
    decreases steps.len(),
{
    if steps.len() == 0 {
        seq![]
    } else {
        let t = taken(s, app, steps[0]);
        (match t.action {
            ActionView::Send(bytes) => bytes,
            _ => seq![],
        }) + sent(t.stream, t.app, steps.skip(1))
    }
}

// ---------------------------------------------------------------------------
// The end of a stream
// ---------------------------------------------------------------------------

/// A stream that is over stays as it is: nothing more is logged or sent.
pub proof fn law_over_is_over(s: StreamView, app: AppView, steps: Seq<Step>)
    requires
        s.done,
    ensures
        stream_after(s, app, steps) == (s, app),
        sent(s, app, steps).len() == 0,
    decreases steps.len(),
{
    if steps.len() > 0 {
        law_over_is_over(s, app, steps.skip(1));
    }
}

proof fn lemma_lines_keep_summaries(r: Run, stamp: Seq<char>, msg: Seq<char>)
    ensures
        error_run(r, stamp, msg).state.summaries == r.state.summaries,
        debug_run(r, stamp, msg).state.summaries == r.state.summaries,
{
}

proof fn lemma_progress_keeps_summaries(
    r: Run,
    stamp: Seq<char>,
    id: Seq<char>,
    bytes: nat,
    text: Seq<char>,
)
    ensures
        progress_run(r, stamp, id, bytes, text).state.summaries == r.state.summaries,
{
}

proof fn lemma_refresh_keeps_summaries(r: Run, streams: Map<Seq<char>, u64>)
    ensures
        refresh_run(r, streams).state.summaries == r.state.summaries,
{
}

/// Whether one summary was added.
pub open spec fn one_more(before: Seq<Seq<char>>, after: Seq<Seq<char>>) -> bool {
    exists|line: Seq<char>| after == #[trigger] with_summary(before, line)
}

proof fn lemma_finish_adds_one(
    r: Run,
    stamp: Seq<char>,
    id: Seq<char>,
    o: crate::log_lines::Outcome,
)
    ensures
        one_more(r.state.summaries, finish_run(r, stamp, id, o).state.summaries),
{
}

proof fn lemma_closing(
    s: StreamView,
    app: AppView,
    r: Run,
    stamp: Seq<char>,
    at: nat,
    status: nat,
    ok: bool,
    detail: Seq<char>,
    action: ActionView,
)
    ensures
        ({
            let t = closing(s, app, r, stamp, at, status, ok, detail, action);
            &&& t.stream.done && t.stream.finished
            &&& !t.app.active_streams.contains_key(s.req_id)
            &&& one_more(r.state.summaries, t.app.logger.summaries)
            &&& t.action == action
        }),
{
    let o = crate::repair::stream_outcome(s, status, ok, at, detail);
    lemma_finish_adds_one(r, stamp, s.req_id, o);
    lemma_refresh_keeps_summaries(
        finish_run(r, stamp, s.req_id, o),
        app.active_streams.remove(s.req_id),
    );
}

proof fn lemma_counted(s: StreamView, app: AppView, stamp: Seq<char>, at: nat, len: nat)
    ensures
        ({
            let t = counted(s, app, stamp, at, len);
            &&& t.app.logger.summaries == app.logger.summaries
            &&& t.stream.done == s.done
            &&& t.stream.finished == s.finished
            &&& t.stream.norm == s.norm
            &&& t.stream.req_id == s.req_id
        }),
{
    let streamed = (s.streamed + len) as u64;
    let active = app.active_streams.insert(s.req_id, streamed);
    let tick = ((s.tick + 1) % crate::state::SPINNER_FRAMES as int) as usize;
    lemma_progress_keeps_summaries(
        begin(app.logger),
        stamp,
        s.req_id,
        streamed as nat,
        crate::state::status_text(active, s.req_id, crate::state::spinner()[tick as int]),
    );
}

/// Whether a stream is over exactly where its end was logged, and in any case where `[DONE]`
/// came.
pub open spec fn sound(s: StreamView) -> bool {
    &&& s.finished <==> s.done
    &&& s.norm.done_seen ==> s.done
}

/// `[DONE]` is sent on when it comes.
proof fn lemma_done_is_sent(s: StreamView, chunk: Seq<u8>)
    requires
        !s.norm.done_seen,
        push_state(s.norm, chunk).done_seen,
    ensures
        push_lines(s.norm, chunk).len() > 0,
{
    let chunks = seq![chunk];
    law_done_goes_out_once(s.norm, chunks);
    assert(chunks.skip(1) =~= Seq::<Seq<u8>>::empty());
    reveal_with_fuel(state_after, 2);
    reveal_with_fuel(all_lines, 2);
    assert(all_lines(s.norm, chunks) =~= push_lines(s.norm, chunk));
}

/// What one event of a stream that is not over does to the end of the request.
proof fn lemma_turn(s: StreamView, app: AppView, step: Step)
    requires
        !s.done,
        sound(s),
    ensures
        ({
            let t = taken(s, app, step);
            &&& sound(t.stream)
            &&& t.stream.req_id == s.req_id
            &&& t.stream.finished ==> one_more(app.logger.summaries, t.app.logger.summaries)
            &&& !t.stream.finished ==> t.app.logger.summaries == app.logger.summaries
            &&& t.stream.done ==> !t.app.active_streams.contains_key(s.req_id)
            &&& t.action is Wait ==> !t.stream.done
        }),
{
    reveal(idle_turn);
    reveal(chunk_turn);
    reveal(failed_turn);
    reveal(end_turn);
    let stamp = step.stamp;
    match step.event {
        EventView::Idle => {
            let m = crate::repair::tagged(s.req_id, idle_message(s.idle as nat));
            lemma_lines_keep_summaries(begin(app.logger), stamp, m);
            let t = taken(s, app, step);
            lemma_closing(
                StreamView { norm: crate::stream::drain_state(s.norm), ..s },
                AppView { total_dropped: app.total_dropped.wrapping_add(1), ..app },
                error_run(begin(app.logger), stamp, m),
                stamp,
                step.at,
                504,
                false,
                "读空闲中止"@,
                t.action,
            );
        },
        EventView::Chunk(chunk) => {
            let c = counted(s, app, stamp, step.at, chunk.len());
            lemma_counted(s, app, stamp, step.at, chunk.len());
            let heard = StreamView { norm: push_state(s.norm, chunk), ..c.stream };
            lemma_closing(
                heard,
                c.app,
                crate::logger::run(c.app.logger, c.effects),
                stamp,
                step.at,
                s.status as nat,
                true,
                ""@,
                sending(push_lines(s.norm, chunk)),
            );
            if heard.norm.done_seen {
                lemma_done_is_sent(s, chunk);
            }
        },
        EventView::Failed(error) => {
            let m = crate::repair::tagged(s.req_id, failed_message(error));
            lemma_lines_keep_summaries(begin(app.logger), stamp, m);
            let t = taken(s, app, step);
            lemma_closing(
                StreamView { norm: crate::stream::drain_state(s.norm), ..s },
                app,
                error_run(begin(app.logger), stamp, m),
                stamp,
                step.at,
                s.status as nat,
                false,
                "上游流错误"@,
                t.action,
            );
        },
        EventView::End => {
            let over = StreamView { norm: crate::stream::drain_state(s.norm), ..s };
            let m = crate::repair::tagged(
                s.req_id,
                crate::stream::leftover_report(crate::utf8::text_in(s.norm.buffer)),
            );
            let t = taken(s, app, step);
            lemma_lines_keep_summaries(begin(app.logger), stamp, m);
            lemma_closing(
                over,
                AppView { total_dropped: app.total_dropped.wrapping_add(1), ..app },
                error_run(begin(app.logger), stamp, m),
                stamp,
                step.at,
                s.status as nat,
                false,
                "上游异常切断"@,
                t.action,
            );
            lemma_closing(
                over,
                app,
                begin(app.logger),
                stamp,
                step.at,
                s.status as nat,
                s.norm.done_seen,
                ""@,
                t.action,
            );
        },
    }
}

/// Whatever comes, the end of the request of a stream is logged exactly once: one summary is
/// added where the stream is over, else none.
pub proof fn law_stream_is_summed_up_once(s: StreamView, app: AppView, steps: Seq<Step>)
    requires
        sound(s),
        !s.done,
    ensures
        ({
            let (t, after) = stream_after(s, app, steps);
            &&& sound(t)
            &&& t.done ==> one_more(app.logger.summaries, after.logger.summaries)
            &&& !t.done ==> after.logger.summaries == app.logger.summaries
        }),
    decreases steps.len(),
{
    if steps.len() > 0 {
        lemma_turn(s, app, steps[0]);
        let t = taken(s, app, steps[0]);
        if t.stream.done {
            law_over_is_over(t.stream, t.app, steps.skip(1));
        } else {
            law_stream_is_summed_up_once(t.stream, t.app, steps.skip(1));
        }
    }
}

/// A stream that is over is not among the open streams.
pub proof fn law_over_is_not_open(s: StreamView, app: AppView, steps: Seq<Step>)
    requires
        sound(s),
        !s.done,
    ensures
        stream_after(s, app, steps).0.done ==> !stream_after(
            s,
            app,
            steps,
        ).1.active_streams.contains_key(s.req_id),
    decreases steps.len(),
{
    if steps.len() > 0 {
        lemma_turn(s, app, steps[0]);
        let t = taken(s, app, steps[0]);
        if t.stream.done {
            law_over_is_over(t.stream, t.app, steps.skip(1));
        } else {
            law_over_is_not_open(t.stream, t.app, steps.skip(1));
        }
    }
}

/// The loop waits for another event only while the stream is not over.
pub proof fn law_waits_only_while_open(s: StreamView, app: AppView, step: Step)
    requires
        sound(s),
    ensures
        taken(s, app, step).action is Wait ==> !taken(s, app, step).stream.done,
{
    if !s.done {
        lemma_turn(s, app, step);
    }
}

// ---------------------------------------------------------------------------
// What the client gets
// ---------------------------------------------------------------------------

/// Whether the events are the given chunks.
pub open spec fn brings(steps: Seq<Step>, chunks: Seq<Seq<u8>>) -> bool {
    &&& steps.len() == chunks.len()
    &&& forall|i: int|
        0 <= i < steps.len() ==> (#[trigger] steps[i]).event == EventView::Chunk(chunks[i])
}

proof fn lemma_framed_concat(a: Seq<Seq<char>>, b: Seq<Seq<char>>)
    ensures
        framed(a + b) == framed(a) + framed(b),
    decreases b.len(),
{
    if b.len() == 0 {
        assert(a + b =~= a);
        assert(framed(a) + framed(b) =~= framed(a));
    } else {
        lemma_framed_concat(a, b.drop_last());
        assert((a + b).drop_last() =~= a + b.drop_last());
        assert(framed(a + b) =~= framed(a) + framed(b));
    }
}

/// What a chunk does to the normalizer and to the client.
proof fn lemma_chunk(s: StreamView, app: AppView, step: Step, chunk: Seq<u8>)
    requires
        sound(s),
        !s.done,
        step.event == EventView::Chunk(chunk),
    ensures
        ({
            let t = taken(s, app, step);
            &&& sound(t.stream)
            &&& t.stream.norm == push_state(s.norm, chunk)
            &&& t.stream.done == push_state(s.norm, chunk).done_seen
            &&& t.action == sending(push_lines(s.norm, chunk))
        }),
{
    reveal(chunk_turn);
    lemma_turn(s, app, step);
    lemma_counted(s, app, step.stamp, step.at, chunk.len());
}

/// The bytes for two groups of lines.
proof fn lemma_sent_concat(a: Seq<Seq<char>>, b: Seq<Seq<char>>)
    ensures
        encode_utf8(framed(a + b)) == (match sending(a) {
            ActionView::Send(bytes) => bytes,
            _ => Seq::<u8>::empty(),
        }) + encode_utf8(framed(b)),
{
    lemma_framed_concat(a, b);
    lemma_encode_concat(framed(a), framed(b));
    if a.len() == 0 {
        assert(framed(a) =~= Seq::<char>::empty());
        assert(encode_utf8(framed(a)) =~= Seq::<u8>::empty());
    }
}

/// As long as the stream is not over, the client gets exactly the lines that the normalizer
/// brings out, each followed by an empty line.
pub proof fn law_client_gets_the_normalized_lines(
    s: StreamView,
    app: AppView,
    steps: Seq<Step>,
    chunks: Seq<Seq<u8>>,
)
    requires
        sound(s),
        !s.done,
        brings(steps, chunks),
        chunks.len() > 0 ==> !state_after(s.norm, chunks.drop_last()).done_seen,
    ensures
        sent(s, app, steps) == encode_utf8(framed(all_lines(s.norm, chunks))),
        stream_after(s, app, steps).0.norm == state_after(s.norm, chunks),
    decreases steps.len(),
{
    if steps.len() == 0 {
        assert(framed(all_lines(s.norm, chunks)) =~= Seq::<char>::empty());
        assert(encode_utf8(framed(all_lines(s.norm, chunks))) =~= Seq::<u8>::empty());
    } else {
        let chunk = chunks[0];
        let t = taken(s, app, steps[0]);
        lemma_chunk(s, app, steps[0], chunk);
        let rest = steps.skip(1);
        let left = chunks.skip(1);
        lemma_sent_concat(push_lines(s.norm, chunk), all_lines(t.stream.norm, left));
        assert(brings(rest, left)) by {
            assert forall|i: int| 0 <= i < rest.len() implies (#[trigger] rest[i]).event
                == EventView::Chunk(left[i]) by {
                assert(rest[i] == steps[i + 1]);
            }
        }
        if left.len() == 0 {
            lemma_nothing_more(t.stream, t.app, rest, left);
        } else {
            let but_last = chunks.drop_last();
            assert(but_last.skip(1) =~= left.drop_last());
            assert(but_last[0] == chunk);
            assert(state_after(s.norm, but_last) == state_after(
                t.stream.norm,
                left.drop_last(),
            ));
            lemma_done_stays(t.stream.norm, left.drop_last());
            law_client_gets_the_normalized_lines(t.stream, t.app, rest, left);
        }
    }
}

proof fn lemma_nothing_more(
    s: StreamView,
    app: AppView,
    steps: Seq<Step>,
    chunks: Seq<Seq<u8>>,
)
    requires
        steps.len() == 0,
        chunks.len() == 0,
    ensures
        sent(s, app, steps) == encode_utf8(framed(all_lines(s.norm, chunks))),
        stream_after(s, app, steps).0.norm == state_after(s.norm, chunks),
{
    assert(framed(all_lines(s.norm, chunks)) =~= Seq::<char>::empty());
    assert(encode_utf8(framed(all_lines(s.norm, chunks))) =~= Seq::<u8>::empty());
}

/// Once `[DONE]` was handed out, it stays so.
proof fn lemma_done_stays(n: crate::stream::NormalizerView, chunks: Seq<Seq<u8>>)
    ensures
        n.done_seen ==> state_after(n, chunks).done_seen,
{
    law_done_goes_out_once(n, chunks);
}

/// However upstream cuts a stream into chunks, also inside a character or a line, the client gets
/// the bytes that it would get if they all came at once.
pub proof fn law_client_does_not_see_the_cuts(
    s: StreamView,
    app: AppView,
    steps: Seq<Step>,
    chunks: Seq<Seq<u8>>,
)
    requires
        sound(s),
        !s.done,
        brings(steps, chunks),
        chunks.len() > 0,
        !state_after(s.norm, chunks.drop_last()).done_seen,
    ensures
        sent(s, app, steps) == encode_utf8(framed(push_lines(s.norm, joined(chunks)))),
{
    law_client_gets_the_normalized_lines(s, app, steps, chunks);
    law_cuts_do_not_matter(s.norm, chunks);
}

/// The end of a request is summed up with the status and the success that are told, the time
/// since its start, the time to its first byte, the tokens that the stream reported, and the sizes
/// of both bodies.
pub proof fn law_stream_is_summed_up_in_full(
    s: StreamView,
    status: nat,
    ok: bool,
    at: nat,
    detail: Seq<char>,
)
    ensures
        stream_outcome(s, status, ok, at, detail) == (Outcome {
            status,
            ok,
            elapsed: Some(at),
            first_byte: s.first_chunk_at,
            tokens: match s.norm.usage_tokens {
                Some(n) => Some(n as nat),
                None => None,
            },
            req_bytes: Some(s.req_bytes as nat),
            bytes: Some(s.streamed as nat),
            detail,
        }),
{
}

/// A chunk is read by the normalizer, its bytes are counted, and the first one tells the time to
/// the first byte. While the stream is open, it is among the open streams, with its bytes.
pub proof fn law_chunk_is_counted(
    s: StreamView,
    app: AppView,
    stamp: Seq<char>,
    at: nat,
    chunk: Seq<u8>,
)
    requires
        !s.done,
        s.streamed + chunk.len() <= u64::MAX,
    ensures
        ({
            let t = turn(s, app, stamp, at, EventView::Chunk(chunk));
            &&& t.stream.norm == push_state(s.norm, chunk)
            &&& t.stream.streamed == s.streamed + chunk.len()
            &&& t.stream.first_chunk_at == Some(
                match s.first_chunk_at {
                    Some(first) => first,
                    None => at,
                },
            )
            &&& !t.stream.done ==> t.app.active_streams == app.active_streams.insert(
                s.req_id,
                (s.streamed + chunk.len()) as u64,
            )
            &&& t.stream.done <==> push_state(s.norm, chunk).done_seen
            &&& t.app.total_dropped == app.total_dropped
            &&& push_lines(s.norm, chunk).len() == 0 ==> t.action is Wait
            &&& push_lines(s.norm, chunk).len() > 0 ==> t.action == ActionView::Send(
                encode_utf8(framed(push_lines(s.norm, chunk))),
            )
        }),
{
    reveal(chunk_turn);
}

/// A stream that ends with `[DONE]` is over, and its request is summed up as a success.
pub proof fn law_done_is_a_success(
    s: StreamView,
    app: AppView,
    stamp: Seq<char>,
    at: nat,
    chunk: Seq<u8>,
)
    requires
        !s.done,
        s.streamed + chunk.len() <= u64::MAX,
        push_state(s.norm, chunk).done_seen,
    ensures
        ({
            let t = turn(s, app, stamp, at, EventView::Chunk(chunk));
            &&& t.stream.done && t.stream.finished
            &&& t.app.logger.summaries == with_summary(
                app.logger.summaries,
                summary_line(
                    crate::table::at(app.logger.pending, s.req_id),
                    clock_text(stamp),
                    s.req_id,
                    Outcome {
                        status: s.status as nat,
                        ok: true,
                        elapsed: Some(at),
                        first_byte: t.stream.first_chunk_at,
                        tokens: match push_state(s.norm, chunk).usage_tokens {
                            Some(n) => Some(n as nat),
                            None => None,
                        },
                        req_bytes: Some(s.req_bytes as nat),
                        bytes: Some((s.streamed + chunk.len()) as nat),
                        detail: ""@,
                    },
                ),
            )
        }),
{
    reveal(chunk_turn);
}

/// A stream that ends without `[DONE]`, and with nothing left over, is closed, and its request is
/// summed up as no success; nothing counts as dropped.
pub proof fn law_end_without_done_is_no_success(
    s: StreamView,
    app: AppView,
    stamp: Seq<char>,
    at: nat,
)
    requires
        !s.done,
        !s.norm.done_seen,
        s.norm.buffer.len() == 0,
    ensures
        ({
            let t = turn(s, app, stamp, at, EventView::End);
            &&& t.action is Close
            &&& t.stream.done && t.stream.finished
            &&& t.app.total_dropped == app.total_dropped
            &&& t.app.logger.summaries == with_summary(
                app.logger.summaries,
                summary_line(
                    crate::table::at(app.logger.pending, s.req_id),
                    clock_text(stamp),
                    s.req_id,
                    stream_outcome(s, s.status as nat, false, at, ""@),
                ),
            )
        }),
{
    reveal(end_turn);
}

/// A sign of life is due when a quarter of a megabyte has come since the last; else one second
/// into the answer, and then every three seconds.
pub proof fn law_signs_of_life(s: StreamView, at: nat, streamed: nat)
    ensures
        streamed >= s.reported_bytes + 262_144 ==> report_due(s, at, streamed),
        streamed < s.reported_bytes + 262_144 ==> (report_due(s, at, streamed) <==> at >= (
        match s.reported_at {
            None => s.opened_at + 1_000_000_000,
            Some(last) => last + 3_000_000_000,
        })),
{
}

/// What is told of a stream that was given up: how long nothing came, or why it could not be read
/// on.
pub proof fn law_messages_tell_why(idle: nat, error: Seq<char>)
    ensures
        stands_in("读空闲 "@ + decimal(idle) + "s"@, idle_message(idle)),
        ends_with(failed_message(error), error),
{
    let m = idle_message(idle);
    let p = "读空闲 "@ + decimal(idle) + "s"@;
    reveal_strlit("s");
    reveal_strlit("s 无数据，主动中止上游（疑似链路静默断开）");
    assert(m.subrange(0int, 0int + p.len()) =~= p);
    let f = failed_message(error);
    assert(f.skip(f.len() - error.len()) =~= error);
}

/// A stream that breaks off in the middle of a frame is never completed: the frame is dropped,
/// the client is told of the error, and the request is summed up as a failure.
pub proof fn law_half_a_frame_is_an_error(s: StreamView, app: AppView, stamp: Seq<char>, at: nat)
    requires
        sound(s),
        !s.done,
        s.norm.buffer.len() > 0,
    ensures
        ({
            let t = turn(s, app, stamp, at, EventView::End);
            &&& t.action == ActionView::Send(
                encode_utf8(error_frame_text("upstream stream terminated prematurely"@)),
            )
            &&& t.stream.done && t.stream.norm.buffer.len() == 0
            &&& t.app.total_dropped == app.total_dropped.wrapping_add(1)
            &&& t.app.logger.summaries == with_summary(
                app.logger.summaries,
                summary_line(
                    crate::table::at(app.logger.pending, s.req_id),
                    clock_text(stamp),
                    s.req_id,
                    stream_outcome(s, s.status as nat, false, at, "上游异常切断"@),
                ),
            )
        }),
{
    reveal(end_turn);
}

/// A stream that is idle for too long is given up, the client is told of the error, and the
/// request is summed up as a failure.
pub proof fn law_idle_stream_is_an_error(s: StreamView, app: AppView, stamp: Seq<char>, at: nat)
    requires
        !s.done,
    ensures
        ({
            let t = turn(s, app, stamp, at, EventView::Idle);
            &&& t.action == ActionView::Send(
                encode_utf8(error_frame_text(idle_message(s.idle as nat))),
            )
            &&& t.stream.done && t.stream.norm.buffer.len() == 0
            &&& t.app.total_dropped == app.total_dropped.wrapping_add(1)
            &&& t.app.logger.summaries == with_summary(
                app.logger.summaries,
                summary_line(
                    crate::table::at(app.logger.pending, s.req_id),
                    clock_text(stamp),
                    s.req_id,
                    stream_outcome(s, 504, false, at, "读空闲中止"@),
                ),
            )
        }),
{
    reveal(idle_turn);
}

/// A stream that cannot be read on is given up, the client is told of the error, and the request
/// is summed up as a failure.
pub proof fn law_read_error_is_an_error(
    s: StreamView,
    app: AppView,
    stamp: Seq<char>,
    at: nat,
    error: Seq<char>,
)
    requires
        !s.done,
    ensures
        ({
            let t = turn(s, app, stamp, at, EventView::Failed(error));
            &&& t.action == ActionView::Send(encode_utf8(error_frame_text(failed_message(error))))
            &&& t.stream.done && t.stream.finished && t.stream.norm.buffer.len() == 0
            &&& t.app.logger.summaries == with_summary(
                app.logger.summaries,
                summary_line(
                    crate::table::at(app.logger.pending, s.req_id),
                    clock_text(stamp),
                    s.req_id,
                    stream_outcome(s, s.status as nat, false, at, "上游流错误"@),
                ),
            )
        }),
{
    reveal(failed_turn);
}

/// A stream that has just been opened is sound, and not over.
pub proof fn law_new_stream_is_sound(
    id: Seq<char>,
    status: u16,
    req_bytes: u64,
    idle: u64,
    at: nat,
)
    ensures
        sound(opened(id, status, req_bytes, idle, at)),
        !opened(id, status, req_bytes, idle, at).done,
{
}

} // verus!
