//! What holds of the log over any run of operations.
use crate::clock::clock_text;
use crate::decimal::{decimal, digit};
use crate::format::{bytes_text, short_upstream};
use crate::log_lines::{
    around, captured_text, color_text, finish_text, finish_tty, opt_bytes, opt_decimal, opt_detail,
    opt_millis, opt_seconds, or_dash, plain_text, start_text, start_tty, Outcome,
};
use crate::logger::{
    after_start, begin, capture, debug_run, erased, error_run, file_line, finish_run, info_file_run,
    info_run, marker_run, progress_run, run, show_status, start_run, summary_line, term_line,
    warn_run, with_summary, write_file, write_line, EffectView, LoggerView, PendingView, Run,
    PENDING_CAP, SUMMARY_CAP,
};
use crate::rounding::{hundredths_text, tenths_text};
use crate::stream::Progress;
use crate::table::at;
use crate::text::{center, last_of, spaces};
use vstd::prelude::*;

verus! {

// ---------------------------------------------------------------------------
// Operations
// ---------------------------------------------------------------------------

/// An operation on the log, with its arguments.
pub enum Operation {
    Debug { stamp: Seq<char>, msg: Seq<char> },
    Info { stamp: Seq<char>, msg: Seq<char> },
    InfoFile { stamp: Seq<char>, msg: Seq<char> },
    Warn { stamp: Seq<char>, msg: Seq<char> },
    Error { stamp: Seq<char>, msg: Seq<char> },
    Marker { text: Seq<char> },
    Start {
        stamp: Seq<char>,
        id: Seq<char>,
        model: Option<Seq<char>>,
        method: Seq<char>,
        path: Seq<char>,
        upstream: Seq<char>,
        req_bytes: nat,
    },
    Progress { stamp: Seq<char>, id: Seq<char>, bytes: nat, tty_text: Seq<char> },
    Finish { stamp: Seq<char>, id: Seq<char>, outcome: Outcome },
    UpdateStatus { text: Seq<char> },
    ClearStatus,
}

/// What an operation does to the log.
pub open spec fn perform(r: Run, op: Operation) -> Run {
    match op {
        Operation::Debug { stamp, msg } => debug_run(r, stamp, msg),
        Operation::Info { stamp, msg } => info_run(r, stamp, msg),
        Operation::InfoFile { stamp, msg } => info_file_run(r, stamp, msg),
        Operation::Warn { stamp, msg } => warn_run(r, stamp, msg),
        Operation::Error { stamp, msg } => error_run(r, stamp, msg),
        Operation::Marker { text } => marker_run(r, text),
        Operation::Start { stamp, id, model, method, path, upstream, req_bytes } => start_run(
            r,
            stamp,
            id,
            model,
            method,
            path,
            upstream,
            req_bytes,
        ),
        Operation::Progress { stamp, id, bytes, tty_text } => progress_run(
            r,
            stamp,
            id,
            bytes,
            tty_text,
        ),
        Operation::Finish { stamp, id, outcome } => finish_run(r, stamp, id, outcome),
        Operation::UpdateStatus { text } => show_status(r, text),
        Operation::ClearStatus => erased(r),
    }
}

/// What a run of operations does to the log.
pub open spec fn perform_all(r: Run, ops: Seq<Operation>) -> Run
    decreases ops.len(),
{
    if ops.len() == 0 {
        r
    } else {
        perform(perform_all(r, ops.drop_last()), ops.last())
    }
}

// ---------------------------------------------------------------------------
// Settings, memory and terminal
// ---------------------------------------------------------------------------

/// Whether two logs are set up in the same way.
pub open spec fn same_settings(a: LoggerView, b: LoggerView) -> bool {
    &&& a.file == b.file
    &&& a.disabled == b.disabled
    &&& a.file_only == b.file_only
    &&& a.color == b.color
    &&& a.level == b.level
}

proof fn lemma_line_keeps_settings(
    r: Run,
    stamp: Seq<char>,
    level: Seq<char>,
    msg: Seq<char>,
    line: Seq<char>,
)
    ensures
        same_settings(erased(r).state, r.state),
        same_settings(term_line(r, line).state, r.state),
        same_settings(write_file(r, stamp, level, msg).state, r.state),
        same_settings(write_line(r, stamp, level, msg).state, r.state),
{
}

proof fn lemma_settings_stay(r: Run, op: Operation)
    ensures
        same_settings(perform(r, op).state, r.state),
{
    match op {
        Operation::Debug { stamp, msg } => {
            lemma_line_keeps_settings(r, stamp, "DEBUG"@, msg, msg);
        },
        Operation::Info { stamp, msg } => {
            lemma_line_keeps_settings(r, stamp, "INFO"@, msg, msg);
        },
        Operation::InfoFile { stamp, msg } => {
            lemma_line_keeps_settings(r, stamp, "INFO"@, msg, msg);
        },
        Operation::Warn { stamp, msg } => {
            lemma_line_keeps_settings(r, stamp, "WARN"@, msg, msg);
        },
        Operation::Error { stamp, msg } => {
            lemma_line_keeps_settings(r, stamp, "ERROR"@, msg, msg);
        },
        Operation::Marker { text } => {},
        Operation::Start { stamp, id, model, method, path, upstream, req_bytes } => {
            lemma_start_keeps_settings(r, stamp, id, model, method, path, upstream, req_bytes);
        },
        Operation::Progress { stamp, id, bytes, tty_text } => {
            lemma_progress_keeps_settings(r, stamp, id, bytes, tty_text);
        },
        Operation::Finish { stamp, id, outcome } => {
            lemma_finish_keeps_settings(r, stamp, id, outcome);
        },
        Operation::UpdateStatus { text } => {},
        Operation::ClearStatus => {},
    }
}

proof fn lemma_start_keeps_settings(
    r: Run,
    stamp: Seq<char>,
    id: Seq<char>,
    model: Option<Seq<char>>,
    method: Seq<char>,
    path: Seq<char>,
    upstream: Seq<char>,
    req_bytes: nat,
)
    ensures
        same_settings(
            start_run(r, stamp, id, model, method, path, upstream, req_bytes).state,
            r.state,
        ),
{
}

proof fn lemma_progress_keeps_settings(
    r: Run,
    stamp: Seq<char>,
    id: Seq<char>,
    bytes: nat,
    tty_text: Seq<char>,
)
    ensures
        same_settings(progress_run(r, stamp, id, bytes, tty_text).state, r.state),
{
}

proof fn lemma_finish_keeps_settings(r: Run, stamp: Seq<char>, id: Seq<char>, outcome: Outcome)
    ensures
        same_settings(finish_run(r, stamp, id, outcome).state, r.state),
{
}

/// No operation changes how the log was set up.
pub proof fn law_settings_stay(r: Run, ops: Seq<Operation>)
    ensures
        same_settings(perform_all(r, ops).state, r.state),
    decreases ops.len(),
{
    if ops.len() > 0 {
        law_settings_stay(r, ops.drop_last());
        lemma_settings_stay(perform_all(r, ops.drop_last()), ops.last());
    }
}

/// A log that keeps no lines in memory never begins to, however much is logged.
pub proof fn law_memory_does_not_grow(r: Run, ops: Seq<Operation>)
    requires
        r.state.captured is None,
    ensures
        perform_all(r, ops).state.captured is None,
    decreases ops.len(),
{
    if ops.len() > 0 {
        law_memory_does_not_grow(r, ops.drop_last());
    }
}

/// Whether only the file was written to.
pub open spec fn only_the_file(effects: Seq<EffectView>) -> bool {
    forall|i: int| 0 <= i < effects.len() ==> (#[trigger] effects[i]) is Append
}

/// A log for the file alone writes nothing to the terminal.
pub proof fn law_file_only_leaves_the_terminal_alone(r: Run, ops: Seq<Operation>)
    requires
        r.state.file_only,
        !r.state.status_shown,
        only_the_file(r.effects),
    ensures
        only_the_file(perform_all(r, ops).effects),
        !perform_all(r, ops).state.status_shown,
    decreases ops.len(),
{
    if ops.len() > 0 {
        law_file_only_leaves_the_terminal_alone(r, ops.drop_last());
        law_settings_stay(r, ops.drop_last());
    }
}

/// A status line is never shown but on a terminal with colors.
pub proof fn law_status_needs_colors(r: Run, ops: Seq<Operation>)
    requires
        r.state.status_shown ==> r.state.color && !r.state.file_only,
    ensures
        perform_all(r, ops).state.status_shown ==> r.state.color && !r.state.file_only,
    decreases ops.len(),
{
    if ops.len() > 0 {
        law_status_needs_colors(r, ops.drop_last());
        law_settings_stay(r, ops.drop_last());
    }
}

// ---------------------------------------------------------------------------
// The file is plain text
// ---------------------------------------------------------------------------

/// The lines that go to the file.
pub open spec fn appended(effects: Seq<EffectView>) -> Seq<Seq<char>>
    decreases effects.len(),
{
    if effects.len() == 0 {
        seq![]
    } else {
        let before = appended(effects.drop_last());
        match effects.last() {
            EffectView::Append(line) => before.push(line),
            EffectView::Print(_) => before,
        }
    }
}

/// Whether two runs differ in nothing but what the terminal shows.
pub open spec fn same_but_for_the_terminal(a: Run, b: Run) -> bool {
    &&& a.state == (LoggerView {
        color: a.state.color,
        status_shown: a.state.status_shown,
        ..b.state
    })
    &&& appended(a.effects) == appended(b.effects)
}

proof fn lemma_appended_push(effects: Seq<EffectView>)
    ensures
        forall|e: EffectView| #[trigger]
            appended(effects.push(e)) == (match e {
                EffectView::Append(line) => appended(effects).push(line),
                EffectView::Print(_) => appended(effects),
            }),
{
    assert forall|e: EffectView| #[trigger] appended(effects.push(e)) == (match e {
        EffectView::Append(line) => appended(effects).push(line),
        EffectView::Print(_) => appended(effects),
    }) by {
        assert(effects.push(e).drop_last() =~= effects);
    }
}

proof fn lemma_term_line_appends_nothing(r: Run, line: Seq<char>)
    ensures
        appended(term_line(r, line).effects) == appended(r.effects),
        appended(erased(r).effects) == appended(r.effects),
{
    lemma_appended_push(r.effects);
    lemma_appended_push(erased(r).effects);
}

proof fn lemma_file_line_appends(r: Run, line: Seq<char>)
    ensures
        appended(file_line(r, line).effects) == (if r.state.file is Some {
            appended(r.effects).push(line)
        } else {
            appended(r.effects)
        }),
{
    lemma_appended_push(r.effects);
}

/// The start of a request appends one line to the file.
pub proof fn lemma_start_appends(
    r: Run,
    stamp: Seq<char>,
    id: Seq<char>,
    model: Option<Seq<char>>,
    method: Seq<char>,
    path: Seq<char>,
    upstream: Seq<char>,
    req_bytes: nat,
)
    requires
        r.state.file is Some,
    ensures
        ({
            let t = start_run(r, stamp, id, model, method, path, upstream, req_bytes);
            let msg = start_text(id, model, method, path, upstream, req_bytes);
            &&& t.state.file is Some
            &&& appended(t.effects) == appended(r.effects).push(plain_text(stamp, "INFO"@, msg))
        }),
{
    let msg = start_text(id, model, method, path, upstream, req_bytes);
    let line = plain_text(stamp, "INFO"@, msg);
    let tty = start_tty(clock_text(stamp), id, model, upstream, req_bytes);
    let t = if r.state.color && !r.state.file_only {
        term_line(r, tty)
    } else {
        r
    };
    lemma_term_line_appends_nothing(r, tty);
    let c = capture(t, captured_text("INFO"@, msg));
    lemma_file_line_appends(c, line);
    let f = write_file(t, stamp, "INFO"@, msg);
    let p = run(start_run(r, stamp, id, model, method, path, upstream, req_bytes).state, f.effects);
    let q = run(
        LoggerView { pending: p.state.pending, ..f.state },
        f.effects,
    );
    lemma_term_line_appends_nothing(q, line);
}

/// The end of a request appends one line to the file.
pub proof fn lemma_finish_appends(r: Run, stamp: Seq<char>, id: Seq<char>, o: Outcome)
    requires
        r.state.file is Some,
    ensures
        appended(finish_run(r, stamp, id, o).effects) == appended(r.effects).push(
            plain_text(stamp, "INFO"@, finish_text(id, o)),
        ),
{
    let msg = finish_text(id, o);
    let line = plain_text(stamp, "INFO"@, msg);
    let tty = finish_tty(clock_text(stamp), id, o);
    let t = if r.state.color && !r.state.file_only {
        term_line(r, tty)
    } else {
        r
    };
    lemma_term_line_appends_nothing(r, tty);
    let c = capture(t, captured_text("INFO"@, msg));
    lemma_file_line_appends(c, line);
    let f = write_file(t, stamp, "INFO"@, msg);
    let end = finish_run(r, stamp, id, o).state;
    let q = run(
        LoggerView { pending: end.pending, summaries: end.summaries, ..f.state },
        f.effects,
    );
    lemma_term_line_appends_nothing(q, line);
}

/// What is printed does not matter to the file.
proof fn lemma_same_printed(a: Run, b: Run, x: Seq<char>, y: Seq<char>)
    requires
        same_but_for_the_terminal(a, b),
    ensures
        same_but_for_the_terminal(erased(a), erased(b)),
        same_but_for_the_terminal(term_line(a, x), term_line(b, y)),
        same_but_for_the_terminal(term_line(a, x), b),
        same_but_for_the_terminal(a, term_line(b, y)),
        same_but_for_the_terminal(show_status(a, x), show_status(b, x)),
{
    lemma_term_line_appends_nothing(a, x);
    lemma_term_line_appends_nothing(b, y);
    lemma_appended_push(a.effects);
    lemma_appended_push(b.effects);
}

proof fn lemma_same_write_file(
    a: Run,
    b: Run,
    stamp: Seq<char>,
    level: Seq<char>,
    msg: Seq<char>,
)
    requires
        same_but_for_the_terminal(a, b),
    ensures
        same_but_for_the_terminal(
            write_file(a, stamp, level, msg),
            write_file(b, stamp, level, msg),
        ),
{
    let line = captured_text(level, msg);
    lemma_file_line_appends(capture(a, line), plain_text(stamp, level, msg));
    lemma_file_line_appends(capture(b, line), plain_text(stamp, level, msg));
}

proof fn lemma_same_write_line(
    a: Run,
    b: Run,
    stamp: Seq<char>,
    level: Seq<char>,
    msg: Seq<char>,
)
    requires
        same_but_for_the_terminal(a, b),
    ensures
        same_but_for_the_terminal(
            write_line(a, stamp, level, msg),
            write_line(b, stamp, level, msg),
        ),
{
    let line = captured_text(level, msg);
    let ca = capture(a, line);
    let cb = capture(b, line);
    let plain = plain_text(stamp, level, msg);
    let bright = color_text(stamp, level, msg);
    let x = if a.state.color {
        bright
    } else {
        plain
    };
    let y = if b.state.color {
        bright
    } else {
        plain
    };
    assert(same_but_for_the_terminal(ca, cb));
    lemma_same_printed(ca, cb, x, y);
    let ta = if a.state.file_only {
        ca
    } else {
        term_line(ca, x)
    };
    let tb = if b.state.file_only {
        cb
    } else {
        term_line(cb, y)
    };
    lemma_file_line_appends(ta, plain);
    lemma_file_line_appends(tb, plain);
}

/// Prints a line, or does not.
spec fn maybe_line(r: Run, on: bool, line: Seq<char>) -> Run {
    if on {
        term_line(r, line)
    } else {
        r
    }
}

proof fn lemma_same_maybe(a: Run, b: Run, on_a: bool, on_b: bool, x: Seq<char>, y: Seq<char>)
    requires
        same_but_for_the_terminal(a, b),
    ensures
        same_but_for_the_terminal(maybe_line(a, on_a, x), maybe_line(b, on_b, y)),
{
    lemma_same_printed(a, b, x, y);
}

proof fn lemma_same_start(
    a: Run,
    b: Run,
    stamp: Seq<char>,
    id: Seq<char>,
    model: Option<Seq<char>>,
    method: Seq<char>,
    path: Seq<char>,
    upstream: Seq<char>,
    req_bytes: nat,
)
    requires
        same_but_for_the_terminal(a, b),
    ensures
        same_but_for_the_terminal(
            start_run(a, stamp, id, model, method, path, upstream, req_bytes),
            start_run(b, stamp, id, model, method, path, upstream, req_bytes),
        ),
{
    let msg = start_text(id, model, method, path, upstream, req_bytes);
    let shown = start_tty(clock_text(stamp), id, model, upstream, req_bytes);
    let ta = maybe_line(a, a.state.color && !a.state.file_only, shown);
    let tb = maybe_line(b, b.state.color && !b.state.file_only, shown);
    lemma_same_maybe(
        a,
        b,
        a.state.color && !a.state.file_only,
        b.state.color && !b.state.file_only,
        shown,
        shown,
    );
    let fa = write_file(ta, stamp, "INFO"@, msg);
    let fb = write_file(tb, stamp, "INFO"@, msg);
    lemma_same_write_file(ta, tb, stamp, "INFO"@, msg);
    let known = PendingView {
        clock: clock_text(stamp),
        head: or_dash(model) + " → "@ + short_upstream(upstream),
        req_bytes,
    };
    let pa = Run {
        state: LoggerView { pending: after_start(fa.state.pending, id, known), ..fa.state },
        ..fa
    };
    let pb = Run {
        state: LoggerView { pending: after_start(fb.state.pending, id, known), ..fb.state },
        ..fb
    };
    let line = plain_text(stamp, "INFO"@, msg);
    lemma_same_maybe(
        pa,
        pb,
        !a.state.color && !a.state.file_only,
        !b.state.color && !b.state.file_only,
        line,
        line,
    );
}

proof fn lemma_same_progress(
    a: Run,
    b: Run,
    stamp: Seq<char>,
    id: Seq<char>,
    bytes: nat,
    tty_text: Seq<char>,
)
    requires
        same_but_for_the_terminal(a, b),
    ensures
        same_but_for_the_terminal(
            progress_run(a, stamp, id, bytes, tty_text),
            progress_run(b, stamp, id, bytes, tty_text),
        ),
{
    let msg = "["@ + id + "] … ↓ "@ + bytes_text(bytes);
    let fa = write_file(a, stamp, "INFO"@, msg);
    let fb = write_file(b, stamp, "INFO"@, msg);
    lemma_same_write_file(a, b, stamp, "INFO"@, msg);
    lemma_same_printed(fa, fb, tty_text, tty_text);
    let line = plain_text(stamp, "INFO"@, msg);
    lemma_same_maybe(
        show_status(fa, tty_text),
        show_status(fb, tty_text),
        !a.state.color && !a.state.file_only,
        !b.state.color && !b.state.file_only,
        line,
        line,
    );
}

proof fn lemma_same_finish(a: Run, b: Run, stamp: Seq<char>, id: Seq<char>, outcome: Outcome)
    requires
        same_but_for_the_terminal(a, b),
    ensures
        same_but_for_the_terminal(
            finish_run(a, stamp, id, outcome),
            finish_run(b, stamp, id, outcome),
        ),
{
    let msg = finish_text(id, outcome);
    let shown = finish_tty(clock_text(stamp), id, outcome);
    let ta = maybe_line(a, a.state.color && !a.state.file_only, shown);
    let tb = maybe_line(b, b.state.color && !b.state.file_only, shown);
    lemma_same_maybe(
        a,
        b,
        a.state.color && !a.state.file_only,
        b.state.color && !b.state.file_only,
        shown,
        shown,
    );
    let fa = write_file(ta, stamp, "INFO"@, msg);
    let fb = write_file(tb, stamp, "INFO"@, msg);
    lemma_same_write_file(ta, tb, stamp, "INFO"@, msg);
    let sa = Run {
        state: LoggerView {
            pending: fa.state.pending.remove(id),
            summaries: with_summary(
                fa.state.summaries,
                summary_line(at(fa.state.pending, id), clock_text(stamp), id, outcome),
            ),
            ..fa.state
        },
        ..fa
    };
    let sb = Run {
        state: LoggerView {
            pending: fb.state.pending.remove(id),
            summaries: with_summary(
                fb.state.summaries,
                summary_line(at(fb.state.pending, id), clock_text(stamp), id, outcome),
            ),
            ..fb.state
        },
        ..fb
    };
    let line = plain_text(stamp, "INFO"@, msg);
    lemma_same_maybe(
        sa,
        sb,
        !a.state.color && !a.state.file_only,
        !b.state.color && !b.state.file_only,
        line,
        line,
    );
}

proof fn lemma_same_file(a: Run, b: Run, op: Operation)
    requires
        same_but_for_the_terminal(a, b),
    ensures
        same_but_for_the_terminal(perform(a, op), perform(b, op)),
{
    match op {
        Operation::Debug { stamp, msg } => lemma_same_write_line(a, b, stamp, "DEBUG"@, msg),
        Operation::Info { stamp, msg } => lemma_same_write_line(a, b, stamp, "INFO"@, msg),
        Operation::InfoFile { stamp, msg } => lemma_same_write_file(a, b, stamp, "INFO"@, msg),
        Operation::Warn { stamp, msg } => lemma_same_write_line(a, b, stamp, "WARN"@, msg),
        Operation::Error { stamp, msg } => lemma_same_write_line(a, b, stamp, "ERROR"@, msg),
        Operation::Marker { text } => {
            lemma_file_line_appends(a, text);
            lemma_file_line_appends(b, text);
        },
        Operation::Start { stamp, id, model, method, path, upstream, req_bytes } =>
            lemma_same_start(a, b, stamp, id, model, method, path, upstream, req_bytes),
        Operation::Progress { stamp, id, bytes, tty_text } =>
            lemma_same_progress(a, b, stamp, id, bytes, tty_text),
        Operation::Finish { stamp, id, outcome } => lemma_same_finish(a, b, stamp, id, outcome),
        Operation::UpdateStatus { text } => lemma_same_printed(a, b, text, text),
        Operation::ClearStatus => lemma_same_printed(a, b, seq![], seq![]),
    }
}

/// The file is always plain text: what goes to it, and what is kept in memory, does not depend
/// on whether the terminal has colors.
pub proof fn law_colors_do_not_reach_the_file(a: Run, b: Run, ops: Seq<Operation>)
    requires
        same_but_for_the_terminal(a, b),
    ensures
        same_but_for_the_terminal(perform_all(a, ops), perform_all(b, ops)),
    decreases ops.len(),
{
    if ops.len() > 0 {
        law_colors_do_not_reach_the_file(a, b, ops.drop_last());
        lemma_same_file(
            perform_all(a, ops.drop_last()),
            perform_all(b, ops.drop_last()),
            ops.last(),
        );
    }
}

// ---------------------------------------------------------------------------
// Summaries
// ---------------------------------------------------------------------------

/// The summaries after a run of requests.
pub open spec fn with_summaries(summaries: Seq<Seq<char>>, lines: Seq<Seq<char>>) -> Seq<Seq<char>>
    decreases lines.len(),
{
    if lines.len() == 0 {
        summaries
    } else {
        with_summary(with_summaries(summaries, lines.drop_last()), lines.last())
    }
}

/// However many requests end, the summaries are the newest ones, oldest first.
pub proof fn law_summaries_are_the_newest(summaries: Seq<Seq<char>>, lines: Seq<Seq<char>>)
    requires
        summaries.len() <= SUMMARY_CAP,
    ensures
        with_summaries(summaries, lines) == last_of(summaries + lines, SUMMARY_CAP as nat),
    decreases lines.len(),
{
    let all = summaries + lines;
    if lines.len() == 0 {
        assert(all =~= summaries);
    } else {
        law_summaries_are_the_newest(summaries, lines.drop_last());
        let before = summaries + lines.drop_last();
        assert(before.push(lines.last()) =~= all);
        assert(with_summaries(summaries, lines) =~= last_of(all, SUMMARY_CAP as nat));
    }
}

/// A request that ends is summed up with what was noted at its start, and is open no longer;
/// the other open requests stay, unless there were too many at its start.
pub proof fn law_finish_closes_what_start_opened(
    r: Run,
    stamp: Seq<char>,
    id: Seq<char>,
    model: Option<Seq<char>>,
    method: Seq<char>,
    path: Seq<char>,
    upstream: Seq<char>,
    req_bytes: nat,
    end: Seq<char>,
    outcome: Outcome,
)
    ensures
        ({
            let opened = start_run(r, stamp, id, model, method, path, upstream, req_bytes);
            let closed = finish_run(opened, end, id, outcome);
            let known = PendingView {
                clock: clock_text(stamp),
                head: or_dash(model) + " → "@ + short_upstream(upstream),
                req_bytes,
            };
            &&& opened.state.pending.contains_key(id)
            &&& !closed.state.pending.contains_key(id)
            &&& r.state.pending.len() < PENDING_CAP ==> closed.state.pending
                == r.state.pending.remove(id)
            &&& closed.state.summaries == with_summary(
                r.state.summaries,
                summary_line(Some(known), clock_text(end), id, outcome),
            )
        }),
{
    let opened = start_run(r, stamp, id, model, method, path, upstream, req_bytes);
    let closed = finish_run(opened, end, id, outcome);
    if r.state.pending.len() < PENDING_CAP {
        assert(closed.state.pending =~= r.state.pending.remove(id));
    }
}

/// What a line of the log is in the file: the stamp, the level in five columns, and the message.
pub proof fn law_lines_tell_their_level(stamp: Seq<char>, msg: Seq<char>)
    ensures
        plain_text(stamp, "ERROR"@, msg) == stamp + " [ERROR] "@ + msg,
        plain_text(stamp, "WARN"@, msg) == stamp + " [WARN ] "@ + msg,
        plain_text(stamp, "INFO"@, msg) == stamp + " [INFO ] "@ + msg,
        plain_text(stamp, "DEBUG"@, msg) == stamp + " [DEBUG] "@ + msg,
{
    reveal_strlit(" [");
    reveal_strlit("] ");
    reveal_strlit("ERROR");
    reveal_strlit("WARN");
    reveal_strlit("INFO");
    reveal_strlit("DEBUG");
    reveal_strlit(" [ERROR] ");
    reveal_strlit(" [WARN ] ");
    reveal_strlit(" [INFO ] ");
    reveal_strlit(" [DEBUG] ");
    assert(center("WARN"@, 5) =~= seq!['W', 'A', 'R', 'N', ' ']);
    assert(center("INFO"@, 5) =~= seq!['I', 'N', 'F', 'O', ' ']);
    assert(plain_text(stamp, "ERROR"@, msg) =~= stamp + " [ERROR] "@ + msg);
    assert(plain_text(stamp, "WARN"@, msg) =~= stamp + " [WARN ] "@ + msg);
    assert(plain_text(stamp, "INFO"@, msg) =~= stamp + " [INFO ] "@ + msg);
    assert(plain_text(stamp, "DEBUG"@, msg) =~= stamp + " [DEBUG] "@ + msg);
}

/// An error and a warning are always written to the file, a line unless the log is disabled, and
/// a debug line only where they are asked for: each once, as it is.
pub proof fn law_what_is_written(s: LoggerView, stamp: Seq<char>, msg: Seq<char>)
    requires
        s.file is Some,
    ensures
        appended(error_run(begin(s), stamp, msg).effects) == seq![stamp + " [ERROR] "@ + msg],
        appended(warn_run(begin(s), stamp, msg).effects) == seq![stamp + " [WARN ] "@ + msg],
        appended(info_run(begin(s), stamp, msg).effects) == (if s.disabled {
            Seq::<Seq<char>>::empty()
        } else {
            seq![stamp + " [INFO ] "@ + msg]
        }),
        appended(info_file_run(begin(s), stamp, msg).effects) == (if s.disabled {
            Seq::<Seq<char>>::empty()
        } else {
            seq![stamp + " [INFO ] "@ + msg]
        }),
        appended(debug_run(begin(s), stamp, msg).effects) == (if s.disabled || !(s.level is Debug) {
            Seq::<Seq<char>>::empty()
        } else {
            seq![stamp + " [DEBUG] "@ + msg]
        }),
        appended(marker_run(begin(s), msg).effects) == (if s.disabled {
            Seq::<Seq<char>>::empty()
        } else {
            seq![msg]
        }),
{
    law_lines_tell_their_level(stamp, msg);
    lemma_line_is_written(s, stamp, "ERROR"@, msg);
    lemma_line_is_written(s, stamp, "WARN"@, msg);
    lemma_line_is_written(s, stamp, "INFO"@, msg);
    lemma_line_is_written(s, stamp, "DEBUG"@, msg);
    let r = begin(s);
    assert(appended(r.effects) =~= Seq::<Seq<char>>::empty());
    lemma_file_line_appends(r, msg);
    assert(appended(r.effects).push(msg) =~= seq![msg]);
    let c = capture(r, captured_text("INFO"@, msg));
    lemma_file_line_appends(c, plain_text(stamp, "INFO"@, msg));
    assert(appended(c.effects).push(plain_text(stamp, "INFO"@, msg)) =~= seq![
        plain_text(stamp, "INFO"@, msg),
    ]);
}

proof fn lemma_line_is_written(s: LoggerView, stamp: Seq<char>, level: Seq<char>, msg: Seq<char>)
    requires
        s.file is Some,
    ensures
        appended(write_line(begin(s), stamp, level, msg).effects) == seq![
            plain_text(stamp, level, msg),
        ],
{
    let r = begin(s);
    let line = plain_text(stamp, level, msg);
    let c = capture(r, captured_text(level, msg));
    let shown = if r.state.color {
        color_text(stamp, level, msg)
    } else {
        line
    };
    lemma_term_line_appends_nothing(c, shown);
    let t = if r.state.file_only {
        c
    } else {
        term_line(c, shown)
    };
    lemma_file_line_appends(t, line);
    assert(appended(r.effects) =~= Seq::<Seq<char>>::empty());
    assert(Seq::<Seq<char>>::empty().push(line) =~= seq![line]);
}

/// At most two hundred summaries are kept; a new one is the last, and only the oldest goes.
pub proof fn law_newest_summary_is_last(summaries: Seq<Seq<char>>, line: Seq<char>)
    requires
        summaries.len() <= 200,
    ensures
        with_summary(summaries, line).len() <= 200,
        with_summary(summaries, line).last() == line,
        summaries.len() < 200 ==> with_summary(summaries, line) == summaries + seq![line],
        summaries.len() == 200 ==> with_summary(summaries, line) == summaries.skip(1) + seq![line],
{
    assert(summaries.push(line) =~= summaries + seq![line]);
    assert(summaries.skip(1).push(line) =~= summaries.skip(1) + seq![line]);
}

/// A request that has started is noted with the time of day, its model and where it goes, and its
/// size. At most five hundred are noted at a time.
pub proof fn law_start_is_noted(
    r: Run,
    stamp: Seq<char>,
    id: Seq<char>,
    model: Option<Seq<char>>,
    method: Seq<char>,
    path: Seq<char>,
    upstream: Seq<char>,
    req_bytes: nat,
)
    ensures
        ({
            let t = start_run(r, stamp, id, model, method, path, upstream, req_bytes);
            &&& t.state.pending.contains_key(id)
            &&& t.state.pending[id] == (PendingView {
                clock: clock_text(stamp),
                head: (match model {
                    Some(m) => m,
                    None => "-"@,
                }) + " → "@ + short_upstream(upstream),
                req_bytes,
            })
            &&& t.state.summaries == r.state.summaries
            &&& r.state.pending.len() < 500 ==> t.state.pending == r.state.pending.insert(
                id,
                t.state.pending[id],
            )
        }),
{
}

// ---------------------------------------------------------------------------
// No control characters where there are no colors
// ---------------------------------------------------------------------------

/// Whether a text holds no control sequence for a terminal.
pub open spec fn clean(s: Seq<char>) -> bool {
    forall|i: int| 0 <= i < s.len() ==> #[trigger] s[i] != '\x1b' && s[i] != '\r'
}

/// Whether a text is clean, if it is there.
pub open spec fn clean_option(s: Option<Seq<char>>) -> bool {
    match s {
        Some(t) => clean(t),
        None => true,
    }
}

/// Whether the texts that an operation is given are clean.
pub open spec fn clean_operation(op: Operation) -> bool {
    match op {
        Operation::Debug { stamp, msg } => clean(stamp) && clean(msg),
        Operation::Info { stamp, msg } => clean(stamp) && clean(msg),
        Operation::InfoFile { stamp, msg } => clean(stamp) && clean(msg),
        Operation::Warn { stamp, msg } => clean(stamp) && clean(msg),
        Operation::Error { stamp, msg } => clean(stamp) && clean(msg),
        Operation::Marker { text } => clean(text),
        Operation::Start { stamp, id, model, method, path, upstream, req_bytes } => clean(stamp)
            && clean(id) && clean_option(model) && clean(method) && clean(path) && clean(upstream),
        Operation::Progress { stamp, id, bytes, tty_text } => clean(stamp) && clean(id),
        Operation::Finish { stamp, id, outcome } => clean(stamp) && clean(id) && clean(
            outcome.detail,
        ),
        Operation::UpdateStatus { text } => true,
        Operation::ClearStatus => true,
    }
}

/// Whether everything that was written is clean.
pub open spec fn clean_effects(effects: Seq<EffectView>) -> bool {
    forall|i: int|
        0 <= i < effects.len() ==> match #[trigger] effects[i] {
            EffectView::Print(s) => clean(s),
            EffectView::Append(s) => clean(s),
        }
}

proof fn lemma_clean_concat(a: Seq<char>, b: Seq<char>)
    requires
        clean(a),
        clean(b),
    ensures
        clean(a + b),
{
    assert forall|i: int| 0 <= i < (a + b).len() implies #[trigger] (a + b)[i] != '\x1b' && (a
        + b)[i] != '\r' by {
        if i < a.len() {
            assert((a + b)[i] == a[i]);
        } else {
            assert((a + b)[i] == b[i - a.len()]);
        }
    }
}

proof fn lemma_clean_decimal(n: nat)
    ensures
        clean(decimal(n)),
    decreases n,
{
    if n >= 10 {
        lemma_clean_decimal(n / 10);
        let before = decimal(n / 10);
        assert forall|i: int| 0 <= i < decimal(n).len() implies #[trigger] decimal(n)[i] != '\x1b'
            && decimal(n)[i] != '\r' by {
            if i < before.len() {
                assert(decimal(n)[i] == before[i]);
            }
        }
    }
}

proof fn lemma_clean_tenths(t: nat)
    ensures
        clean(tenths_text(t)),
{
    reveal_strlit(".");
    lemma_clean_decimal(t / 10);
    lemma_clean_concat(decimal(t / 10), "."@);
    lemma_clean_concat(decimal(t / 10) + "."@, seq![digit(t % 10)]);
}

proof fn lemma_clean_hundredths(t: nat)
    ensures
        clean(hundredths_text(t)),
{
    reveal_strlit(".");
    lemma_clean_decimal(t / 100);
    lemma_clean_concat(decimal(t / 100), "."@);
    lemma_clean_concat(decimal(t / 100) + "."@, seq![digit((t / 10) % 10), digit(t % 10)]);
}

proof fn lemma_clean_bytes(b: nat)
    ensures
        clean(bytes_text(b)),
{
    reveal_strlit("B");
    reveal_strlit("KB");
    reveal_strlit("MB");
    lemma_clean_decimal(b);
    lemma_clean_concat(decimal(b), "B"@);
    let kb = crate::rounding::half_even(b * 10, 1024);
    lemma_clean_tenths(kb);
    lemma_clean_concat(tenths_text(kb), "KB"@);
    let mb = crate::rounding::half_even(
        crate::rounding::rounded(b, crate::format::DOUBLE as nat) * 10,
        1024 * 1024,
    );
    lemma_clean_tenths(mb);
    lemma_clean_concat(tenths_text(mb), "MB"@);
}

proof fn lemma_clean_around(before: Seq<char>, piece: Option<Seq<char>>, after: Seq<char>)
    requires
        clean(before),
        clean_option(piece),
        clean(after),
    ensures
        clean(around(before, piece, after)),
{
    if let Some(p) = piece {
        lemma_clean_concat(before, p);
        lemma_clean_concat(before + p, after);
    }
}

proof fn lemma_clean_plain(stamp: Seq<char>, level: Seq<char>, msg: Seq<char>)
    requires
        clean(stamp),
        clean(level),
        clean(msg),
    ensures
        clean(plain_text(stamp, level, msg)),
        clean(plain_text(stamp, level, msg) + "\n"@),
{
    reveal_strlit(" [");
    reveal_strlit("] ");
    reveal_strlit("\n");
    if level.len() < 5 {
        let pad = (5 - level.len()) as nat;
        lemma_clean_concat(spaces(pad / 2), level);
        lemma_clean_concat(spaces(pad / 2) + level, spaces((pad - pad / 2) as nat));
    }
    lemma_clean_concat(stamp, " ["@);
    lemma_clean_concat(stamp + " ["@, center(level, 5));
    lemma_clean_concat(stamp + " ["@ + center(level, 5), "] "@);
    lemma_clean_concat(stamp + " ["@ + center(level, 5) + "] "@, msg);
    lemma_clean_concat(plain_text(stamp, level, msg), "\n"@);
}

proof fn lemma_clean_start(
    id: Seq<char>,
    model: Option<Seq<char>>,
    method: Seq<char>,
    path: Seq<char>,
    upstream: Seq<char>,
    req_bytes: nat,
)
    requires
        clean(id),
        clean_option(model),
        clean(method),
        clean(path),
        clean(upstream),
    ensures
        clean(start_text(id, model, method, path, upstream, req_bytes)),
{
    reveal_strlit("[");
    reveal_strlit("] -> ");
    reveal_strlit("-");
    reveal_strlit(" ");
    reveal_strlit(" (req ");
    reveal_strlit(") 转发至 ");
    lemma_clean_bytes(req_bytes);
    let a = "["@ + id;
    lemma_clean_concat("["@, id);
    let b = a + "] -> "@;
    lemma_clean_concat(a, "] -> "@);
    let c = b + or_dash(model);
    lemma_clean_concat(b, or_dash(model));
    let d = c + " "@;
    lemma_clean_concat(c, " "@);
    let e = d + method;
    lemma_clean_concat(d, method);
    let f = e + " "@;
    lemma_clean_concat(e, " "@);
    let g = f + path;
    lemma_clean_concat(f, path);
    let h = g + " (req "@;
    lemma_clean_concat(g, " (req "@);
    let i = h + bytes_text(req_bytes);
    lemma_clean_concat(h, bytes_text(req_bytes));
    let j = i + ") 转发至 "@;
    lemma_clean_concat(i, ") 转发至 "@);
    lemma_clean_concat(j, upstream);
}

proof fn lemma_clean_progress(id: Seq<char>, bytes: nat)
    requires
        clean(id),
    ensures
        clean("["@ + id + "] … ↓ "@ + bytes_text(bytes)),
{
    reveal_strlit("[");
    reveal_strlit("] … ↓ ");
    lemma_clean_bytes(bytes);
    lemma_clean_concat("["@, id);
    lemma_clean_concat("["@ + id, "] … ↓ "@);
    lemma_clean_concat("["@ + id + "] … ↓ "@, bytes_text(bytes));
}

proof fn lemma_clean_finish(id: Seq<char>, o: Outcome)
    requires
        clean(id),
        clean(o.detail),
    ensures
        clean(finish_text(id, o)),
{
    reveal_strlit("[");
    reveal_strlit("] <- ");
    reveal_strlit(" 耗时 ");
    reveal_strlit("s");
    reveal_strlit(" 首包 ");
    reveal_strlit("ms");
    reveal_strlit(" req ");
    reveal_strlit(" resp ");
    reveal_strlit("");
    reveal_strlit(" ");
    reveal_strlit(" tok");
    if let Some(d) = o.elapsed {
        lemma_clean_hundredths(
            crate::rounding::half_even(
                crate::clock::seconds(d) * 100,
                crate::clock::ONE_SECOND as nat,
            ),
        );
    }
    if let Some(d) = o.first_byte {
        lemma_clean_decimal(d / 1_000_000);
    }
    if let Some(b) = o.req_bytes {
        lemma_clean_bytes(b);
    }
    if let Some(b) = o.bytes {
        lemma_clean_bytes(b);
    }
    if let Some(t) = o.tokens {
        lemma_clean_decimal(t);
    }
    lemma_clean_decimal(o.status);
    let a = "["@ + id;
    lemma_clean_concat("["@, id);
    let b = a + "] <- "@;
    lemma_clean_concat(a, "] <- "@);
    let c = b + decimal(o.status);
    lemma_clean_concat(b, decimal(o.status));
    let p1 = around(" 耗时 "@, opt_seconds(o.elapsed), "s"@);
    lemma_clean_around(" 耗时 "@, opt_seconds(o.elapsed), "s"@);
    let d = c + p1;
    lemma_clean_concat(c, p1);
    let p2 = around(" 首包 "@, opt_millis(o.first_byte), "ms"@);
    lemma_clean_around(" 首包 "@, opt_millis(o.first_byte), "ms"@);
    let e = d + p2;
    lemma_clean_concat(d, p2);
    let p3 = around(" req "@, opt_bytes(o.req_bytes), ""@);
    lemma_clean_around(" req "@, opt_bytes(o.req_bytes), ""@);
    let f = e + p3;
    lemma_clean_concat(e, p3);
    let p4 = around(" resp "@, opt_bytes(o.bytes), ""@);
    lemma_clean_around(" resp "@, opt_bytes(o.bytes), ""@);
    let g = f + p4;
    lemma_clean_concat(f, p4);
    let p5 = around(" "@, opt_decimal(o.tokens), " tok"@);
    lemma_clean_around(" "@, opt_decimal(o.tokens), " tok"@);
    let h = g + p5;
    lemma_clean_concat(g, p5);
    let p6 = around(" "@, opt_detail(o.detail), ""@);
    lemma_clean_around(" "@, opt_detail(o.detail), ""@);
    lemma_clean_concat(h, p6);
}

proof fn lemma_clean_perform(r: Run, op: Operation)
    requires
        !r.state.color,
        !r.state.status_shown,
        clean_effects(r.effects),
        clean_operation(op),
    ensures
        !perform(r, op).state.status_shown,
        clean_effects(perform(r, op).effects),
{
    reveal_strlit("INFO");
    reveal_strlit("DEBUG");
    reveal_strlit("WARN");
    reveal_strlit("ERROR");
    match op {
        Operation::Debug { stamp, msg } => lemma_clean_plain(stamp, "DEBUG"@, msg),
        Operation::Info { stamp, msg } => lemma_clean_plain(stamp, "INFO"@, msg),
        Operation::InfoFile { stamp, msg } => lemma_clean_plain(stamp, "INFO"@, msg),
        Operation::Warn { stamp, msg } => lemma_clean_plain(stamp, "WARN"@, msg),
        Operation::Error { stamp, msg } => lemma_clean_plain(stamp, "ERROR"@, msg),
        Operation::Marker { text } => {},
        Operation::Start { stamp, id, model, method, path, upstream, req_bytes } => {
            lemma_clean_start(id, model, method, path, upstream, req_bytes);
            lemma_clean_plain(
                stamp,
                "INFO"@,
                start_text(id, model, method, path, upstream, req_bytes),
            );
        },
        Operation::Progress { stamp, id, bytes, tty_text } => {
            lemma_clean_progress(id, bytes);
            lemma_clean_plain(stamp, "INFO"@, "["@ + id + "] … ↓ "@ + bytes_text(bytes));
        },
        Operation::Finish { stamp, id, outcome } => {
            lemma_clean_finish(id, outcome);
            lemma_clean_plain(stamp, "INFO"@, finish_text(id, outcome));
        },
        Operation::UpdateStatus { text } => {},
        Operation::ClearStatus => {},
    }
}

/// Without colors, as in a pipe, the log writes no control sequence that it was not given.
pub proof fn law_no_control_sequences_without_colors(r: Run, ops: Seq<Operation>)
    requires
        !r.state.color,
        !r.state.status_shown,
        clean_effects(r.effects),
        forall|i: int| 0 <= i < ops.len() ==> clean_operation(#[trigger] ops[i]),
    ensures
        clean_effects(perform_all(r, ops).effects),
        !perform_all(r, ops).state.status_shown,
    decreases ops.len(),
{
    if ops.len() > 0 {
        law_no_control_sequences_without_colors(r, ops.drop_last());
        law_settings_stay(r, ops.drop_last());
        assert(clean_operation(ops[ops.len() - 1]));
        lemma_clean_perform(perform_all(r, ops.drop_last()), ops.last());
    }
}

/// A sign of life of a stream tells the id, and how much has been received.
pub proof fn law_progress_tells_the_bytes(
    r: Run,
    stamp: Seq<char>,
    id: Seq<char>,
    bytes: nat,
    tty_text: Seq<char>,
)
    requires
        r.state.captured is Some,
    ensures
        progress_run(r, stamp, id, bytes, tty_text).state.captured == Some(
            r.state.captured->0.push("[INFO] ["@ + id + "] … ↓ "@ + bytes_text(bytes)),
        ),
{
    reveal_strlit("[");
    reveal_strlit("] ");
    reveal_strlit("INFO");
    reveal_strlit("[INFO] [");
    let msg = "["@ + id + "] … ↓ "@ + bytes_text(bytes);
    assert(captured_text("INFO"@, msg) =~= "[INFO] ["@ + id + "] … ↓ "@ + bytes_text(bytes));
}

/// A line goes to the terminal as it goes to the file, unless there are colors; where a status line
/// is shown it is cleared first, and is gone.
pub proof fn law_what_is_printed(s: LoggerView, stamp: Seq<char>, msg: Seq<char>)
    requires
        !s.file_only,
        !s.color,
    ensures
        ({
            let i: int = if s.status_shown {
                1
            } else {
                0
            };
            let e = error_run(begin(s), stamp, msg);
            let w = warn_run(begin(s), stamp, msg);
            let n = info_run(begin(s), stamp, msg);
            &&& s.status_shown ==> e.effects[0] == EffectView::Print("\r\x1b[2K"@)
            &&& !e.state.status_shown
            &&& e.effects[i] == EffectView::Print(stamp + " [ERROR] "@ + msg + "\n"@)
            &&& w.effects[i] == EffectView::Print(stamp + " [WARN ] "@ + msg + "\n"@)
            &&& !s.disabled ==> n.effects[i] == EffectView::Print(
                stamp + " [INFO ] "@ + msg + "\n"@,
            )
        }),
{
    law_lines_tell_their_level(stamp, msg);
}

} // verus!
