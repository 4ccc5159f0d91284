//! The log: what goes to the terminal and what goes to the file.
//!
//! The logger decides; it does not write. Each operation returns the writes it asks for, in
//! order. The file is always plain text. The terminal has colors where it can show them, and a
//! status line that is redrawn in place.
use crate::clock::{clock_of, clock_text, is_stamp, local_stamp, Duration};
use crate::format::{bytes_text, fmt_bytes, short_upstream, shorten_upstream};
use crate::log_lines::{
    captured_text, color_line_of, color_text, finish_line_of, finish_text, finish_tty,
    finish_tty_of, model_or_dash, or_dash, outcome, plain_line_of, plain_text, start_line_of,
    start_text, start_tty, start_tty_of, summary_of, summary_text, Outcome,
};
use crate::table::{at, Table};
use crate::text::{keep_last, last_of, opt_str, opt_string};
use std::collections::VecDeque;
use vstd::prelude::*;

verus! {

/// How many summaries are kept; the oldest goes first.
pub const SUMMARY_CAP: usize = 200;

/// How many requests may be open; beyond that the table is cleared.
pub const PENDING_CAP: usize = 500;

/// Log files longer than this are rotated.
pub const ROTATE_BYTES: u64 = 10_485_760;

/// Whether the terminal gets colors.
#[derive(Clone, Copy, PartialEq, Eq, Structural, Debug)]
pub enum ColorMode {
    /// Colors on a terminal, plain text in a pipe.
    Auto,
    /// Colors in any case.
    Always,
    /// Plain text in any case.
    Never,
}

/// Which lines are logged.
#[derive(Clone, Copy, PartialEq, Eq, Structural, Debug)]
pub enum LogLevel {
    /// All of them.
    Debug,
    /// All but debug lines.
    Info,
}

/// A write that the log asks for.
#[derive(PartialEq, Eq, Debug)]
pub enum Effect {
    /// Write the text to the terminal as it is.
    Print(String),
    /// Append the line to the log file, and a newline.
    Append(String),
}

/// The model of [`Effect`].
pub enum EffectView {
    Print(Seq<char>),
    Append(Seq<char>),
}

impl DeepView for Effect {
    type V = EffectView;

    open spec fn deep_view(&self) -> EffectView {
        match self {
            Effect::Print(s) => EffectView::Print(s@),
            Effect::Append(s) => EffectView::Append(s@),
        }
    }
}

/// A request that has started and not finished.
struct PendingReq {
    clock: String,
    head: String,
    req_bytes: u64,
}

/// What is known of a request that has started and not finished.
#[verifier::ext_equal]
pub struct PendingView {
    /// The time of day at its start.
    pub clock: Seq<char>,
    /// Its model and where it goes.
    pub head: Seq<char>,
    /// The size of its body.
    pub req_bytes: nat,
}

/// The log.
pub struct Logger {
    file: Option<String>,
    disabled: bool,
    file_only: bool,
    color: bool,
    level: LogLevel,
    status_shown: bool,
    captured: Option<Vec<String>>,
    pending: Table<PendingReq>,
    summaries: VecDeque<String>,
}

/// The model of [`Logger`].
#[verifier::ext_equal]
pub struct LoggerView {
    /// The path of the log file, if there is one.
    pub file: Option<Seq<char>>,
    /// Whether `debug` and `info` lines and markers are left out.
    pub disabled: bool,
    /// Whether the terminal is left alone.
    pub file_only: bool,
    /// Whether the terminal gets colors.
    pub color: bool,
    /// Which lines are logged.
    pub level: LogLevel,
    /// Whether the terminal shows a status line.
    pub status_shown: bool,
    /// The lines kept in memory, where they are kept.
    pub captured: Option<Seq<Seq<char>>>,
    /// The requests that have started and not finished.
    pub pending: Map<Seq<char>, PendingView>,
    /// One line for each of the last requests.
    pub summaries: Seq<Seq<char>>,
}

spec fn entry(p: PendingReq) -> PendingView {
    PendingView { clock: p.clock@, head: p.head@, req_bytes: p.req_bytes as nat }
}

impl View for Logger {
    type V = LoggerView;

    closed spec fn view(&self) -> LoggerView {
        LoggerView {
            file: opt_string(self.file),
            disabled: self.disabled,
            file_only: self.file_only,
            color: self.color,
            level: self.level,
            status_shown: self.status_shown,
            captured: match self.captured {
                Some(lines) => Some(lines.deep_view()),
                None => None,
            },
            pending: self.pending@.map_values(|p: PendingReq| entry(p)),
            summaries: Seq::new(self.summaries@.len(), |i: int| self.summaries@[i]@),
        }
    }
}

// ---------------------------------------------------------------------------
// What an operation does to the log
// ---------------------------------------------------------------------------

/// A log, and the writes that it has asked for.
#[verifier::ext_equal]
pub struct Run {
    pub state: LoggerView,
    pub effects: Seq<EffectView>,
}

/// A log, and the writes that it has asked for.
pub open spec fn run(state: LoggerView, effects: Seq<EffectView>) -> Run {
    Run { state, effects }
}

/// The log before an operation.
pub open spec fn begin(state: LoggerView) -> Run {
    Run { state, effects: seq![] }
}

/// Clears the status line, where one is shown.
pub open spec fn erased(r: Run) -> Run {
    if r.state.status_shown {
        Run {
            state: LoggerView { status_shown: false, ..r.state },
            effects: r.effects.push(EffectView::Print("\r\x1b[2K"@)),
        }
    } else {
        r
    }
}

/// Prints a line on the terminal, in place of the status line.
pub open spec fn term_line(r: Run, line: Seq<char>) -> Run {
    let e = erased(r);
    Run { effects: e.effects.push(EffectView::Print(line + "\n"@)), ..e }
}

/// Appends a line to the file, where there is one.
pub open spec fn file_line(r: Run, line: Seq<char>) -> Run {
    if r.state.file is Some {
        Run { effects: r.effects.push(EffectView::Append(line)), ..r }
    } else {
        r
    }
}

/// Keeps a line in memory, where lines are kept.
pub open spec fn capture(r: Run, line: Seq<char>) -> Run {
    match r.state.captured {
        Some(lines) => Run {
            state: LoggerView { captured: Some(lines.push(line)), ..r.state },
            ..r
        },
        None => r,
    }
}

/// Writes a line to the file and to memory.
pub open spec fn write_file(r: Run, stamp: Seq<char>, level: Seq<char>, msg: Seq<char>) -> Run {
    file_line(capture(r, captured_text(level, msg)), plain_text(stamp, level, msg))
}

/// Writes a line to the terminal, to the file and to memory.
pub open spec fn write_line(r: Run, stamp: Seq<char>, level: Seq<char>, msg: Seq<char>) -> Run {
    let c = capture(r, captured_text(level, msg));
    let t = if r.state.file_only {
        c
    } else {
        term_line(
            c,
            if r.state.color {
                color_text(stamp, level, msg)
            } else {
                plain_text(stamp, level, msg)
            },
        )
    };
    file_line(t, plain_text(stamp, level, msg))
}

/// Redraws the status line, where the terminal can.
pub open spec fn show_status(r: Run, text: Seq<char>) -> Run {
    if r.state.color && !r.state.file_only {
        Run {
            state: LoggerView { status_shown: true, ..r.state },
            effects: r.effects.push(EffectView::Print("\r\x1b[2K"@ + text)),
        }
    } else {
        r
    }
}

/// Whether a debug line is logged.
pub open spec fn logs_debug(s: LoggerView) -> bool {
    !s.disabled && s.level == LogLevel::Debug
}

/// Logs a debug line.
pub open spec fn debug_run(r: Run, stamp: Seq<char>, msg: Seq<char>) -> Run {
    if logs_debug(r.state) {
        write_line(r, stamp, "DEBUG"@, msg)
    } else {
        r
    }
}

/// Logs a line.
pub open spec fn info_run(r: Run, stamp: Seq<char>, msg: Seq<char>) -> Run {
    if r.state.disabled {
        r
    } else {
        write_line(r, stamp, "INFO"@, msg)
    }
}

/// Logs a line to the file alone.
pub open spec fn info_file_run(r: Run, stamp: Seq<char>, msg: Seq<char>) -> Run {
    if r.state.disabled {
        r
    } else {
        write_file(r, stamp, "INFO"@, msg)
    }
}

/// Logs a warning.
pub open spec fn warn_run(r: Run, stamp: Seq<char>, msg: Seq<char>) -> Run {
    write_line(r, stamp, "WARN"@, msg)
}

/// Logs an error.
pub open spec fn error_run(r: Run, stamp: Seq<char>, msg: Seq<char>) -> Run {
    write_line(r, stamp, "ERROR"@, msg)
}

/// Appends a line to the file as it is.
pub open spec fn marker_run(r: Run, text: Seq<char>) -> Run {
    if r.state.disabled {
        r
    } else {
        file_line(r, text)
    }
}

/// The open requests after one more has started. Where there are too many, the others are
/// forgotten: only the start of their summaries is lost.
pub open spec fn after_start(
    pending: Map<Seq<char>, PendingView>,
    id: Seq<char>,
    p: PendingView,
) -> Map<Seq<char>, PendingView> {
    (if pending.len() >= PENDING_CAP {
        Map::empty()
    } else {
        pending
    }).insert(id, p)
}

/// What the start of a request does to the log.
pub open spec fn start_run(
    r: Run,
    stamp: Seq<char>,
    id: Seq<char>,
    model: Option<Seq<char>>,
    method: Seq<char>,
    path: Seq<char>,
    upstream: Seq<char>,
    req_bytes: nat,
) -> Run {
    let msg = start_text(id, model, method, path, upstream, req_bytes);
    let t = if r.state.color && !r.state.file_only {
        term_line(r, start_tty(clock_text(stamp), id, model, upstream, req_bytes))
    } else {
        r
    };
    let f = write_file(t, stamp, "INFO"@, msg);
    let p = Run {
        state: LoggerView {
            pending: after_start(
                f.state.pending,
                id,
                PendingView {
                    clock: clock_text(stamp),
                    head: or_dash(model) + " → "@ + short_upstream(upstream),
                    req_bytes,
                },
            ),
            ..f.state
        },
        ..f
    };
    if !r.state.color && !r.state.file_only {
        term_line(p, plain_text(stamp, "INFO"@, msg))
    } else {
        p
    }
}

/// What progress of a request does to the log.
pub open spec fn progress_run(
    r: Run,
    stamp: Seq<char>,
    id: Seq<char>,
    bytes: nat,
    tty_text: Seq<char>,
) -> Run {
    let msg = "["@ + id + "] … ↓ "@ + bytes_text(bytes);
    let s = show_status(write_file(r, stamp, "INFO"@, msg), tty_text);
    if !r.state.color && !r.state.file_only {
        term_line(s, plain_text(stamp, "INFO"@, msg))
    } else {
        s
    }
}

/// The summaries after one more.
pub open spec fn with_summary(summaries: Seq<Seq<char>>, line: Seq<char>) -> Seq<Seq<char>> {
    (if summaries.len() >= SUMMARY_CAP {
        summaries.skip(1)
    } else {
        summaries
    }).push(line)
}

/// The summary of a request, from what is known of its start, if anything is. Without a start,
/// it shows the time of day at the end.
pub open spec fn summary_line(
    started: Option<PendingView>,
    clock: Seq<char>,
    id: Seq<char>,
    o: Outcome,
) -> Seq<char> {
    match started {
        Some(p) => summary_text(p.clock, p.head, Some(p.req_bytes), id, o),
        None => summary_text(clock, "-"@, None, id, o),
    }
}

/// What the end of a request does to the log.
pub open spec fn finish_run(r: Run, stamp: Seq<char>, id: Seq<char>, o: Outcome) -> Run {
    let msg = finish_text(id, o);
    let t = if r.state.color && !r.state.file_only {
        term_line(r, finish_tty(clock_text(stamp), id, o))
    } else {
        r
    };
    let f = write_file(t, stamp, "INFO"@, msg);
    let s = Run {
        state: LoggerView {
            pending: f.state.pending.remove(id),
            summaries: with_summary(
                f.state.summaries,
                summary_line(at(f.state.pending, id), clock_text(stamp), id, o),
            ),
            ..f.state
        },
        ..f
    };
    if !r.state.color && !r.state.file_only {
        term_line(s, plain_text(stamp, "INFO"@, msg))
    } else {
        s
    }
}

// ---------------------------------------------------------------------------
// The log
// ---------------------------------------------------------------------------

/// Whether the terminal gets colors.
pub open spec fn wants_color(mode: ColorMode, terminal: bool) -> bool {
    mode == ColorMode::Always || (mode == ColorMode::Auto && terminal)
}

/// Whether the terminal gets colors, given whether it is one.
pub fn use_color(mode: ColorMode, terminal: bool) -> (r: bool)
    ensures
        r == wants_color(mode, terminal),
        r <==> mode is Always || (mode is Auto && terminal),
{
    match mode {
        ColorMode::Always => true,
        ColorMode::Never => false,
        ColorMode::Auto => terminal,
    }
}

/// Whether a log file of the given length is rotated before it is opened.
pub fn rotation_due(len: u64) -> (r: bool)
    ensures
        r == (len > ROTATE_BYTES),
        r <==> len > 10 * 1024 * 1024,
{
    len > ROTATE_BYTES
}

/// Adds a write to the list.
fn ask(out: &mut Vec<Effect>, e: Effect)
    ensures
        final(out).deep_view() == old(out).deep_view().push(e.deep_view()),
{
    let ghost before = out.deep_view();
    out.push(e);
    assert(out.deep_view() =~= before.push(e.deep_view()));
}

/// A log in which nothing has happened.
pub open spec fn empty_log(
    file: Option<Seq<char>>,
    disabled: bool,
    file_only: bool,
    color: bool,
    level: LogLevel,
    captured: Option<Seq<Seq<char>>>,
) -> LoggerView {
    LoggerView {
        file,
        disabled,
        file_only,
        color,
        level,
        status_shown: false,
        captured,
        pending: Map::empty(),
        summaries: seq![],
    }
}

impl Logger {
    /// The invariant: neither table is over its limit, and a status line is shown only on a
    /// terminal with colors.
    pub closed spec fn wf(&self) -> bool {
        &&& self.pending@.dom().finite()
        &&& self.pending@.len() <= PENDING_CAP
        &&& self.summaries@.len() <= SUMMARY_CAP
        &&& self.status_shown ==> self.color && !self.file_only
    }

    /// What the invariant says of the model.
    pub proof fn law_tables_are_bounded(&self)
        requires
            self.wf(),
        ensures
            self@.pending.dom().finite(),
            self@.pending.len() <= PENDING_CAP,
            self@.summaries.len() <= SUMMARY_CAP,
            self@.status_shown ==> self@.color && !self@.file_only,
    {
        assert(self@.pending.dom() =~= self.pending@.dom());
    }

    fn build(
        file: Option<String>,
        disabled: bool,
        file_only: bool,
        color: bool,
        level: LogLevel,
        captured: Option<Vec<String>>,
    ) -> (r: Self)
        ensures
            r.wf(),
            r@ == empty_log(
                opt_string(file),
                disabled,
                file_only,
                color,
                level,
                match captured {
                    Some(lines) => Some(lines.deep_view()),
                    None => None,
                },
            ),
    {
        let r = Logger {
            file,
            disabled,
            file_only,
            color,
            level,
            status_shown: false,
            captured,
            pending: Table::new(),
            summaries: VecDeque::new(),
        };
        assert(r@.summaries =~= Seq::<Seq<char>>::empty());
        assert(r@.pending =~= Map::empty());
        r
    }

    /// A log that writes to the file of the given path. `terminal` says whether the standard
    /// output is a terminal; `file_only` leaves the terminal alone. It keeps no lines in memory.
    pub fn new_with_mode(
        file_path: &str,
        mode: ColorMode,
        terminal: bool,
        file_only: bool,
        debug_on: bool,
    ) -> (r: Self)
        ensures
            r.wf(),
            r@ == empty_log(
                Some(file_path@),
                false,
                file_only,
                wants_color(mode, terminal),
                if debug_on {
                    LogLevel::Debug
                } else {
                    LogLevel::Info
                },
                None,
            ),
            r@.file == Some(file_path@),
            !r@.disabled && r@.file_only == file_only,
            r@.color <==> mode is Always || (mode is Auto && terminal),
            r@.level is Debug <==> debug_on,
            r@.captured is None && !r@.status_shown,
            r@.pending.len() == 0 && r@.summaries.len() == 0,
    {
        Self::build(
            Some(file_path.to_owned()),
            false,
            file_only,
            use_color(mode, terminal),
            if debug_on {
                LogLevel::Debug
            } else {
                LogLevel::Info
            },
            None,
        )
    }

    /// A log without a file.
    pub fn disabled() -> (r: Self)
        ensures
            r.wf(),
            r@ == empty_log(None, true, false, false, LogLevel::Info, None),
            r@.disabled && r@.file is None && r@.captured is None,
    {
        Self::build(None, true, false, false, LogLevel::Info, None)
    }

    /// A log that keeps its lines in memory, and writes neither to a file nor to the terminal.
    pub fn memory() -> (r: Self)
        ensures
            r.wf(),
            r@ == empty_log(
                None,
                false,
                true,
                false,
                LogLevel::Info,
                Some(Seq::<Seq<char>>::empty()),
            ),
            !r@.disabled && r@.file is None && r@.file_only,
            r@.captured is Some && r@.captured->0.len() == 0,
            r@.level is Info,
    {
        let lines: Vec<String> = Vec::new();
        assert(lines.deep_view() =~= Seq::<Seq<char>>::empty());
        Self::build(None, false, true, false, LogLevel::Info, Some(lines))
    }

    /// Clears the status line, where one is shown, and asks for the write in `out`.
    pub fn clear_status_to(&mut self, out: &mut Vec<Effect>)
        requires
            old(self).wf(),
        ensures
            final(self).wf(),
            run(final(self)@, final(out).deep_view()) == erased(
                run(old(self)@, old(out).deep_view()),
            ),
    {
        if self.status_shown {
            ask(out, Effect::Print("\r\x1b[2K".to_owned()));
            self.status_shown = false;
        }
    }

    fn print_line(&mut self, out: &mut Vec<Effect>, line: String)
        requires
            old(self).wf(),
        ensures
            final(self).wf(),
            run(final(self)@, final(out).deep_view()) == term_line(
                run(old(self)@, old(out).deep_view()),
                line@,
            ),
    {
        self.clear_status_to(out);
        let mut text = line;
        text.append("\n");
        ask(out, Effect::Print(text));
    }

    fn append_line(&self, out: &mut Vec<Effect>, line: String)
        ensures
            run(self@, final(out).deep_view()) == file_line(
                run(self@, old(out).deep_view()),
                line@,
            ),
    {
        if self.file.is_some() {
            ask(out, Effect::Append(line));
        }
    }

    fn keep(&mut self, out: &Vec<Effect>, level: &str, msg: &str)
        requires
            old(self).wf(),
        ensures
            final(self).wf(),
            run(final(self)@, out.deep_view()) == capture(
                run(old(self)@, out.deep_view()),
                captured_text(level@, msg@),
            ),
    {
        if self.captured.is_some() {
            let mut kept: Option<Vec<String>> = None;
            std::mem::swap(&mut kept, &mut self.captured);
            if let Some(mut lines) = kept {
                let ghost before = lines.deep_view();
                let mut text = "[".to_owned();
                text.append(level);
                text.append("] ");
                text.append(msg);
                lines.push(text);
                assert(lines.deep_view() =~= before.push(text@));
                self.captured = Some(lines);
            }
        }
    }

    fn write_file_at(&mut self, out: &mut Vec<Effect>, stamp: &str, level: &str, msg: &str)
        requires
            old(self).wf(),
        ensures
            final(self).wf(),
            run(final(self)@, final(out).deep_view()) == write_file(
                run(old(self)@, old(out).deep_view()),
                stamp@,
                level@,
                msg@,
            ),
    {
        self.keep(out, level, msg);
        self.append_line(out, plain_line_of(stamp, level, msg));
    }

    fn write_line_at(&mut self, out: &mut Vec<Effect>, stamp: &str, level: &str, msg: &str)
        requires
            old(self).wf(),
        ensures
            final(self).wf(),
            run(final(self)@, final(out).deep_view()) == write_line(
                run(old(self)@, old(out).deep_view()),
                stamp@,
                level@,
                msg@,
            ),
    {
        self.keep(out, level, msg);
        if !self.file_only {
            let line = if self.color {
                color_line_of(stamp, level, msg)
            } else {
                plain_line_of(stamp, level, msg)
            };
            self.print_line(out, line);
        }
        self.append_line(out, plain_line_of(stamp, level, msg));
    }

    /// Redraws the status line in place, and asks for the write in `out`.
    pub fn update_status_to(&mut self, out: &mut Vec<Effect>, text: &str)
        requires
            old(self).wf(),
        ensures
            final(self).wf(),
            run(final(self)@, final(out).deep_view()) == show_status(
                run(old(self)@, old(out).deep_view()),
                text@,
            ),
    {
        if self.color && !self.file_only {
            let mut drawn = "\r\x1b[2K".to_owned();
            drawn.append(text);
            ask(out, Effect::Print(drawn));
            self.status_shown = true;
        }
    }

    /// Redraws the status line in place. Only a terminal with colors shows one: no control
    /// characters go into a pipe or a file.
    pub fn update_status(&mut self, text: &str) -> (r: Vec<Effect>)
        requires
            old(self).wf(),
        ensures
            final(self).wf(),
            run(final(self)@, r.deep_view()) == show_status(begin(old(self)@), text@),
    {
        let mut out: Vec<Effect> = Vec::new();
        assert(out.deep_view() =~= Seq::<EffectView>::empty());
        self.update_status_to(&mut out, text);
        out
    }

    /// Clears the status line, where one is shown.
    pub fn clear_status(&mut self) -> (r: Vec<Effect>)
        requires
            old(self).wf(),
        ensures
            final(self).wf(),
            run(final(self)@, r.deep_view()) == erased(begin(old(self)@)),
    {
        let mut out: Vec<Effect> = Vec::new();
        assert(out.deep_view() =~= Seq::<EffectView>::empty());
        self.clear_status_to(&mut out);
        out
    }

    /// Logs a debug line, where debug lines are logged.
    pub fn debug_at(&mut self, out: &mut Vec<Effect>, stamp: &str, msg: &str)
        requires
            old(self).wf(),
        ensures
            final(self).wf(),
            run(final(self)@, final(out).deep_view()) == debug_run(
                run(old(self)@, old(out).deep_view()),
                stamp@,
                msg@,
            ),
    {
        if self.disabled {
            return ;
        }
        match self.level {
            LogLevel::Debug => self.write_line_at(out, stamp, "DEBUG", msg),
            LogLevel::Info => {},
        }
    }

    /// Logs a debug line at the present time.
    pub fn debug(&mut self, msg: &str) -> (r: Vec<Effect>)
        requires
            old(self).wf(),
        ensures
            final(self).wf(),
            exists|stamp: Seq<char>| #[trigger]
                is_stamp(stamp) && run(final(self)@, r.deep_view()) == debug_run(
                    begin(old(self)@),
                    stamp,
                    msg@,
                ),
    {
        let mut out: Vec<Effect> = Vec::new();
        assert(out.deep_view() =~= Seq::<EffectView>::empty());
        let stamp = local_stamp();
        self.debug_at(&mut out, stamp.as_str(), msg);
        out
    }

    /// Logs a line.
    pub fn info_at(&mut self, out: &mut Vec<Effect>, stamp: &str, msg: &str)
        requires
            old(self).wf(),
        ensures
            final(self).wf(),
            run(final(self)@, final(out).deep_view()) == info_run(
                run(old(self)@, old(out).deep_view()),
                stamp@,
                msg@,
            ),
    {
        if !self.disabled {
            self.write_line_at(out, stamp, "INFO", msg);
        }
    }

    /// Logs a line at the present time.
    pub fn info(&mut self, msg: &str) -> (r: Vec<Effect>)
        requires
            old(self).wf(),
        ensures
            final(self).wf(),
            exists|stamp: Seq<char>| #[trigger]
                is_stamp(stamp) && run(final(self)@, r.deep_view()) == info_run(
                    begin(old(self)@),
                    stamp,
                    msg@,
                ),
    {
        let mut out: Vec<Effect> = Vec::new();
        assert(out.deep_view() =~= Seq::<EffectView>::empty());
        let stamp = local_stamp();
        self.info_at(&mut out, stamp.as_str(), msg);
        out
    }

    /// Logs a line to the file alone: the caller shows it on the terminal.
    pub fn info_file_at(&mut self, out: &mut Vec<Effect>, stamp: &str, msg: &str)
        requires
            old(self).wf(),
        ensures
            final(self).wf(),
            run(final(self)@, final(out).deep_view()) == info_file_run(
                run(old(self)@, old(out).deep_view()),
                stamp@,
                msg@,
            ),
    {
        if !self.disabled {
            self.write_file_at(out, stamp, "INFO", msg);
        }
    }

    /// Logs a line to the file alone at the present time.
    pub fn info_file(&mut self, msg: &str) -> (r: Vec<Effect>)
        requires
            old(self).wf(),
        ensures
            final(self).wf(),
            exists|stamp: Seq<char>| #[trigger]
                is_stamp(stamp) && run(final(self)@, r.deep_view()) == info_file_run(
                    begin(old(self)@),
                    stamp,
                    msg@,
                ),
    {
        let mut out: Vec<Effect> = Vec::new();
        assert(out.deep_view() =~= Seq::<EffectView>::empty());
        let stamp = local_stamp();
        self.info_file_at(&mut out, stamp.as_str(), msg);
        out
    }

    /// Logs a warning.
    pub fn warn_at(&mut self, out: &mut Vec<Effect>, stamp: &str, msg: String)
        requires
            old(self).wf(),
        ensures
            final(self).wf(),
            run(final(self)@, final(out).deep_view()) == warn_run(
                run(old(self)@, old(out).deep_view()),
                stamp@,
                msg@,
            ),
    {
        self.write_line_at(out, stamp, "WARN", msg.as_str());
    }

    /// Logs a warning at the present time.
    pub fn warn(&mut self, msg: String) -> (r: Vec<Effect>)
        requires
            old(self).wf(),
        ensures
            final(self).wf(),
            exists|stamp: Seq<char>| #[trigger]
                is_stamp(stamp) && run(final(self)@, r.deep_view()) == warn_run(
                    begin(old(self)@),
                    stamp,
                    msg@,
                ),
    {
        let mut out: Vec<Effect> = Vec::new();
        assert(out.deep_view() =~= Seq::<EffectView>::empty());
        let stamp = local_stamp();
        self.warn_at(&mut out, stamp.as_str(), msg);
        out
    }

    /// Logs an error.
    pub fn error_at(&mut self, out: &mut Vec<Effect>, stamp: &str, msg: &str)
        requires
            old(self).wf(),
        ensures
            final(self).wf(),
            run(final(self)@, final(out).deep_view()) == error_run(
                run(old(self)@, old(out).deep_view()),
                stamp@,
                msg@,
            ),
    {
        self.write_line_at(out, stamp, "ERROR", msg);
    }

    /// Logs an error at the present time.
    pub fn error(&mut self, msg: &str) -> (r: Vec<Effect>)
        requires
            old(self).wf(),
        ensures
            final(self).wf(),
            exists|stamp: Seq<char>| #[trigger]
                is_stamp(stamp) && run(final(self)@, r.deep_view()) == error_run(
                    begin(old(self)@),
                    stamp,
                    msg@,
                ),
    {
        let mut out: Vec<Effect> = Vec::new();
        assert(out.deep_view() =~= Seq::<EffectView>::empty());
        let stamp = local_stamp();
        self.error_at(&mut out, stamp.as_str(), msg);
        out
    }

    /// Appends a line to the file as it is, without a stamp: the mark of a new session.
    pub fn marker(&mut self, text: &str) -> (r: Vec<Effect>)
        requires
            old(self).wf(),
        ensures
            final(self).wf(),
            run(final(self)@, r.deep_view()) == marker_run(begin(old(self)@), text@),
    {
        let mut out: Vec<Effect> = Vec::new();
        assert(out.deep_view() =~= Seq::<EffectView>::empty());
        if !self.disabled {
            self.append_line(&mut out, text.to_owned());
        }
        out
    }

    /// Logs the start of a request: its model, where it goes and the size of its body.
    pub fn start_request_at(
        &mut self,
        out: &mut Vec<Effect>,
        stamp: &str,
        req_id: &str,
        model: Option<&str>,
        method: &str,
        path: &str,
        upstream: &str,
        req_bytes: u64,
    )
        requires
            old(self).wf(),
        ensures
            final(self).wf(),
            run(final(self)@, final(out).deep_view()) == start_run(
                run(old(self)@, old(out).deep_view()),
                stamp@,
                req_id@,
                opt_str(model),
                method@,
                path@,
                upstream@,
                req_bytes as nat,
            ),
    {
        let msg = start_line_of(req_id, model, method, path, upstream, req_bytes);
        if self.color && !self.file_only {
            self.print_line(out, start_tty_of(stamp, req_id, model, upstream, req_bytes));
        }
        self.write_file_at(out, stamp, "INFO", msg.as_str());
        self.record_start(stamp, req_id, model, upstream, req_bytes);
        if !self.color && !self.file_only {
            self.print_line(out, plain_line_of(stamp, "INFO", msg.as_str()));
        }
    }

    /// Logs the start of a request at the present time.
    pub fn start_request(
        &mut self,
        req_id: &str,
        model: Option<&str>,
        method: &str,
        path: &str,
        upstream: &str,
        req_bytes: u64,
    ) -> (r: Vec<Effect>)
        requires
            old(self).wf(),
        ensures
            final(self).wf(),
            exists|stamp: Seq<char>| #[trigger]
                is_stamp(stamp) && run(final(self)@, r.deep_view()) == start_run(
                    begin(old(self)@),
                    stamp,
                    req_id@,
                    opt_str(model),
                    method@,
                    path@,
                    upstream@,
                    req_bytes as nat,
                ),
    {
        let mut out: Vec<Effect> = Vec::new();
        assert(out.deep_view() =~= Seq::<EffectView>::empty());
        let stamp = local_stamp();
        self.start_request_at(
            &mut out,
            stamp.as_str(),
            req_id,
            model,
            method,
            path,
            upstream,
            req_bytes,
        );
        out
    }

    /// Logs the progress of a request. The terminal shows `tty_text` in the status line.
    pub fn progress_at(
        &mut self,
        out: &mut Vec<Effect>,
        stamp: &str,
        req_id: &str,
        bytes: u64,
        tty_text: &str,
    )
        requires
            old(self).wf(),
        ensures
            final(self).wf(),
            run(final(self)@, final(out).deep_view()) == progress_run(
                run(old(self)@, old(out).deep_view()),
                stamp@,
                req_id@,
                bytes as nat,
                tty_text@,
            ),
    {
        let mut msg = "[".to_owned();
        msg.append(req_id);
        msg.append("] … ↓ ");
        msg.append(fmt_bytes(bytes).as_str());
        self.write_file_at(out, stamp, "INFO", msg.as_str());
        self.update_status_to(out, tty_text);
        if !self.color && !self.file_only {
            self.print_line(out, plain_line_of(stamp, "INFO", msg.as_str()));
        }
    }

    /// Logs the progress of a request at the present time.
    pub fn progress(&mut self, req_id: &str, bytes: u64, tty_text: &str) -> (r: Vec<Effect>)
        requires
            old(self).wf(),
        ensures
            final(self).wf(),
            exists|stamp: Seq<char>| #[trigger]
                is_stamp(stamp) && run(final(self)@, r.deep_view()) == progress_run(
                    begin(old(self)@),
                    stamp,
                    req_id@,
                    bytes as nat,
                    tty_text@,
                ),
    {
        let mut out: Vec<Effect> = Vec::new();
        assert(out.deep_view() =~= Seq::<EffectView>::empty());
        let stamp = local_stamp();
        self.progress_at(&mut out, stamp.as_str(), req_id, bytes, tty_text);
        out
    }

    /// Logs the end of a request: its status and the figures that are known. `detail` says what went
    /// wrong, if anything did.
    pub fn finish_request_at(
        &mut self,
        out: &mut Vec<Effect>,
        stamp: &str,
        req_id: &str,
        status: u16,
        ok: bool,
        elapsed: Option<Duration>,
        first_byte: Option<Duration>,
        tokens: Option<u64>,
        req_bytes: Option<u64>,
        bytes: Option<u64>,
        detail: &str,
    )
        requires
            old(self).wf(),
        ensures
            final(self).wf(),
            run(final(self)@, final(out).deep_view()) == finish_run(
                run(old(self)@, old(out).deep_view()),
                stamp@,
                req_id@,
                outcome(status, ok, elapsed, first_byte, tokens, req_bytes, bytes, detail@),
            ),
    {
        let msg = finish_line_of(
            req_id,
            status,
            ok,
            elapsed,
            first_byte,
            tokens,
            req_bytes,
            bytes,
            detail,
        );
        if self.color && !self.file_only {
            let line = finish_tty_of(
                stamp,
                req_id,
                status,
                ok,
                elapsed,
                first_byte,
                tokens,
                req_bytes,
                bytes,
                detail,
            );
            self.print_line(out, line);
        }
        self.write_file_at(out, stamp, "INFO", msg.as_str());
        self.record_summary(
            stamp,
            req_id,
            status,
            ok,
            elapsed,
            first_byte,
            tokens,
            req_bytes,
            bytes,
            detail,
        );
        if !self.color && !self.file_only {
            self.print_line(out, plain_line_of(stamp, "INFO", msg.as_str()));
        }
    }

    /// Logs the end of a request at the present time.
    pub fn finish_request(
        &mut self,
        req_id: &str,
        status: u16,
        ok: bool,
        elapsed: Option<Duration>,
        first_byte: Option<Duration>,
        tokens: Option<u64>,
        req_bytes: Option<u64>,
        bytes: Option<u64>,
        detail: &str,
    ) -> (r: Vec<Effect>)
        requires
            old(self).wf(),
        ensures
            final(self).wf(),
            exists|stamp: Seq<char>| #[trigger]
                is_stamp(stamp) && run(final(self)@, r.deep_view()) == finish_run(
                    begin(old(self)@),
                    stamp,
                    req_id@,
                    outcome(status, ok, elapsed, first_byte, tokens, req_bytes, bytes, detail@),
                ),
    {
        let mut out: Vec<Effect> = Vec::new();
        assert(out.deep_view() =~= Seq::<EffectView>::empty());
        let stamp = local_stamp();
        self.finish_request_at(
            &mut out,
            stamp.as_str(),
            req_id,
            status,
            ok,
            elapsed,
            first_byte,
            tokens,
            req_bytes,
            bytes,
            detail,
        );
        out
    }

    /// Takes note of a request that starts.
    fn record_start(
        &mut self,
        stamp: &str,
        req_id: &str,
        model: Option<&str>,
        upstream: &str,
        req_bytes: u64,
    )
        requires
            old(self).wf(),
        ensures
            final(self).wf(),
            final(self)@ == (LoggerView {
                pending: after_start(
                    old(self)@.pending,
                    req_id@,
                    PendingView {
                        clock: clock_text(stamp@),
                        head: or_dash(opt_str(model)) + " → "@ + short_upstream(upstream@),
                        req_bytes: req_bytes as nat,
                    },
                ),
                ..old(self)@
            }),
    {
        let ghost before = self@.pending;
        assert(before.dom() =~= self.pending@.dom());
        if self.pending.len() >= PENDING_CAP {
            self.pending = Table::new();
        }
        let mut head = model_or_dash(model).to_owned();
        head.append(" → ");
        head.append(shorten_upstream(upstream).as_str());
        let added = PendingReq { clock: clock_of(stamp), head, req_bytes };
        self.pending.insert(req_id, added);
        assert(self@.pending =~= after_start(before, req_id@, entry(added)));
    }

    /// Puts together the summary of a request that ends.
    fn record_summary(
        &mut self,
        stamp: &str,
        req_id: &str,
        status: u16,
        ok: bool,
        elapsed: Option<Duration>,
        first_byte: Option<Duration>,
        tokens: Option<u64>,
        req_bytes: Option<u64>,
        bytes: Option<u64>,
        detail: &str,
    )
        requires
            old(self).wf(),
        ensures
            final(self).wf(),
            ({
                let o = outcome(
                    status,
                    ok,
                    elapsed,
                    first_byte,
                    tokens,
                    req_bytes,
                    bytes,
                    detail@,
                );
                final(self)@ == (LoggerView {
                    pending: old(self)@.pending.remove(req_id@),
                    summaries: with_summary(
                        old(self)@.summaries,
                        summary_line(
                            at(old(self)@.pending, req_id@),
                            clock_text(stamp@),
                            req_id@,
                            o,
                        ),
                    ),
                    ..old(self)@
                })
            }),
    {
        let ghost before = self@.pending;
        let ghost lines = self@.summaries;
        let (clock, head, start_bytes) = match self.pending.remove(req_id) {
            Some(p) => (p.clock, p.head, Some(p.req_bytes)),
            None => (clock_of(stamp), "-".to_owned(), None),
        };
        assert(self@.pending =~= before.remove(req_id@));
        let line = summary_of(
            clock.as_str(),
            head.as_str(),
            start_bytes,
            req_id,
            status,
            ok,
            elapsed,
            first_byte,
            tokens,
            req_bytes,
            bytes,
            detail,
        );
        if self.summaries.len() >= SUMMARY_CAP {
            self.summaries.pop_front();
        }
        self.summaries.push_back(line);
        assert(self@.summaries =~= with_summary(lines, line@));
    }

    /// The last `n` summaries, oldest first.
    pub fn summaries(&self, n: usize) -> (r: Vec<String>)
        ensures
            r.deep_view() == last_of(self@.summaries, n as nat),
    {
        let len = self.summaries.len();
        let from: usize = if len <= n {
            0
        } else {
            len - n
        };
        let mut out: Vec<String> = Vec::new();
        for i in from..len
            invariant
                from <= i <= len,
                len == self.summaries@.len(),
                out.deep_view() =~= self@.summaries.subrange(from as int, i as int),
        {
            let ghost before = out.deep_view();
            out.push(self.summaries[i].clone());
            assert(out.deep_view() =~= before.push(self@.summaries[i as int]));
        }
        assert(out.deep_view() =~= last_of(self@.summaries, n as nat));
        out
    }

    /// The path of the log file.
    pub fn file_path(&self) -> (r: Option<String>)
        ensures
            opt_string(r) == self@.file,
    {
        match &self.file {
            Some(path) => Some(path.clone()),
            None => None,
        }
    }

    /// The lines that were kept in memory; none, where none are kept.
    pub fn captured(&self) -> (r: Vec<String>)
        ensures
            r.deep_view() == (match self@.captured {
                Some(lines) => lines,
                None => Seq::empty(),
            }),
    {
        match &self.captured {
            Some(lines) => keep_last(lines, lines.len()),
            None => {
                let none: Vec<String> = Vec::new();
                assert(none.deep_view() =~= Seq::<Seq<char>>::empty());
                none
            },
        }
    }
}

} // verus!
