//! The lines of the log: how they read in the file, on a terminal with colors, and in the list
//! of summaries.
use crate::clock::{clock_of, clock_text, Duration};
use crate::decimal::{decimal, decimal_text};
use crate::format::{
    bytes_text, colored, colorize_req_ids, duration_text, fmt_bytes, fmt_duration, fmt_seconds,
    seconds_text, short_upstream, shorten_upstream,
};
use crate::text::{
    center, centered, ends_with, join, join_texts, opt_str, opt_string, same_text, stands_in,
    starts_with,
};
use vstd::prelude::*;

verus! {

/// A line of the log in plain text.
pub open spec fn plain_text(stamp: Seq<char>, level: Seq<char>, msg: Seq<char>) -> Seq<char> {
    stamp + " ["@ + center(level, 5) + "] "@ + msg
}

/// The color of a level.
pub open spec fn level_color(level: Seq<char>) -> Seq<char> {
    if level == "ERROR"@ {
        "\x1b[1;31m"@
    } else if level == "WARN"@ {
        "\x1b[1;33m"@
    } else {
        "\x1b[2m"@
    }
}

/// A line of the log in color.
pub open spec fn color_text(stamp: Seq<char>, level: Seq<char>, msg: Seq<char>) -> Seq<char> {
    colored(
        stamp + " ["@ + level_color(level) + center(level, 5) + "\x1b[0m"@ + "] "@ + msg,
    )
}

/// A line as it is kept in memory.
pub open spec fn captured_text(level: Seq<char>, msg: Seq<char>) -> Seq<char> {
    "["@ + level + "] "@ + msg
}

// ---------------------------------------------------------------------------
// The lines of a request
// ---------------------------------------------------------------------------

/// The text, or a dash where there is none.
pub open spec fn or_dash(s: Option<Seq<char>>) -> Seq<char> {
    match s {
        Some(t) => t,
        None => "-"@,
    }
}

/// The line for the start of a request in the file. It holds the whole address.
pub open spec fn start_text(
    id: Seq<char>,
    model: Option<Seq<char>>,
    method: Seq<char>,
    path: Seq<char>,
    upstream: Seq<char>,
    req_bytes: nat,
) -> Seq<char> {
    "["@ + id + "] -> "@ + or_dash(model) + " "@ + method + " "@ + path + " (req "@ + bytes_text(
        req_bytes,
    ) + ") 转发至 "@ + upstream
}

/// The line for the start of a request on a terminal with colors.
pub open spec fn start_tty(
    clock: Seq<char>,
    id: Seq<char>,
    model: Option<Seq<char>>,
    upstream: Seq<char>,
    req_bytes: nat,
) -> Seq<char> {
    "\x1b[2m"@ + clock + "\x1b[0m \x1b[1;36m▶\x1b[0m \x1b[1;36m["@ + center(id, 6)
        + "]\x1b[0m \x1b[1m"@ + or_dash(model) + "\x1b[0m \x1b[34m→ "@ + short_upstream(upstream)
        + "\x1b[0m \x1b[1;32m↑\x1b[0m \x1b[2m"@ + bytes_text(req_bytes) + "\x1b[0m"@
}

/// How a request ended.
pub struct Outcome {
    pub status: nat,
    pub ok: bool,
    /// How long it took.
    pub elapsed: Option<nat>,
    /// How long it took to the first byte of the answer.
    pub first_byte: Option<nat>,
    /// The tokens that it used.
    pub tokens: Option<nat>,
    /// The size of its body.
    pub req_bytes: Option<nat>,
    /// The size of the answer.
    pub bytes: Option<nat>,
    /// What went wrong.
    pub detail: Seq<char>,
}

/// Whether a status tells of success.
pub open spec fn is_success(status: nat) -> bool {
    200 <= status < 300
}

/// The text in front of a piece that may be missing, the piece, and the text behind it; or
/// nothing.
pub open spec fn around(before: Seq<char>, piece: Option<Seq<char>>, after: Seq<char>) -> Seq<
    char,
> {
    match piece {
        Some(p) => before + p + after,
        None => seq![],
    }
}

/// The same as a list of at most one item.
pub open spec fn around_list(
    before: Seq<char>,
    piece: Option<Seq<char>>,
    after: Seq<char>,
) -> Seq<Seq<char>> {
    match piece {
        Some(p) => seq![before + p + after],
        None => seq![],
    }
}

pub open spec fn opt_seconds(d: Option<nat>) -> Option<Seq<char>> {
    match d {
        Some(d) => Some(seconds_text(d)),
        None => None,
    }
}

pub open spec fn opt_duration(d: Option<nat>) -> Option<Seq<char>> {
    match d {
        Some(d) => Some(duration_text(d)),
        None => None,
    }
}

pub open spec fn opt_millis(d: Option<nat>) -> Option<Seq<char>> {
    match d {
        Some(d) => Some(decimal(d / 1_000_000)),
        None => None,
    }
}

pub open spec fn opt_bytes(b: Option<nat>) -> Option<Seq<char>> {
    match b {
        Some(b) => Some(bytes_text(b)),
        None => None,
    }
}

pub open spec fn opt_decimal(n: Option<nat>) -> Option<Seq<char>> {
    match n {
        Some(n) => Some(decimal(n)),
        None => None,
    }
}

/// The detail, if there is any.
pub open spec fn opt_detail(detail: Seq<char>) -> Option<Seq<char>> {
    if detail.len() == 0 {
        None
    } else {
        Some(detail)
    }
}

/// The line for the end of a request in the file.
pub open spec fn finish_text(id: Seq<char>, o: Outcome) -> Seq<char> {
    "["@ + id + "] <- "@ + decimal(o.status) + around(" 耗时 "@, opt_seconds(o.elapsed), "s"@)
        + around(" 首包 "@, opt_millis(o.first_byte), "ms"@) + around(
        " req "@,
        opt_bytes(o.req_bytes),
        ""@,
    ) + around(" resp "@, opt_bytes(o.bytes), ""@) + around(" "@, opt_decimal(o.tokens), " tok"@)
        + around(" "@, opt_detail(o.detail), ""@)
}

/// The color of a status: green for success, red for the rest.
pub open spec fn status_color(status: nat) -> Seq<char> {
    if is_success(status) {
        "1;32"@
    } else {
        "1;31"@
    }
}

/// The mark of a request that ended well, or of one that did not.
pub open spec fn icon(ok: bool) -> Seq<char> {
    if ok {
        "✔"@
    } else {
        "✘"@
    }
}

/// The status and the figures of a request on a terminal with colors.
pub open spec fn finish_parts(o: Outcome) -> Seq<Seq<char>> {
    seq!["\x1b["@ + status_color(o.status) + "m"@ + decimal(o.status) + "\x1b[0m"@] + around_list(
        "\x1b[1;35m"@,
        opt_duration(o.elapsed),
        "\x1b[0m"@,
    ) + around_list("\x1b[2m首包 "@, opt_millis(o.first_byte), "ms\x1b[0m"@) + around_list(
        "\x1b[1;32m↑\x1b[0m \x1b[2m"@,
        opt_bytes(o.req_bytes),
        "\x1b[0m"@,
    ) + around_list("\x1b[34m↓\x1b[0m \x1b[2m"@, opt_bytes(o.bytes), "\x1b[0m"@) + around_list(
        "\x1b[2m"@,
        opt_decimal(o.tokens),
        " tok\x1b[0m"@,
    )
}

/// The line for the end of a request on a terminal with colors.
pub open spec fn finish_tty(clock: Seq<char>, id: Seq<char>, o: Outcome) -> Seq<char> {
    "\x1b[2m"@ + clock + "\x1b[0m \x1b["@ + status_color(o.status) + "m"@ + icon(o.ok)
        + "\x1b[0m \x1b[1;36m["@ + center(id, 6) + "]\x1b[0m "@ + join(
        finish_parts(o),
        " \x1b[2m·\x1b[0m "@,
    ) + (if o.ok {
        around(" "@, opt_detail(o.detail), ""@)
    } else {
        around(" \x1b[1;31m"@, opt_detail(o.detail), "\x1b[0m"@)
    })
}

/// The first of two that is there.
pub open spec fn first_some(a: Option<nat>, b: Option<nat>) -> Option<nat> {
    match a {
        Some(_) => a,
        None => b,
    }
}

/// The figures of a summary.
pub open spec fn summary_parts(req_bytes: Option<nat>, o: Outcome) -> Seq<Seq<char>> {
    around_list("↑ "@, opt_bytes(req_bytes), ""@) + seq![
        icon(o.ok) + " "@ + decimal(o.status) + around(" "@, opt_duration(o.elapsed), ""@),
    ] + around_list("首包 "@, opt_millis(o.first_byte), "ms"@) + around_list(
        "↓ "@,
        opt_bytes(o.bytes),
        ""@,
    ) + around_list(""@, opt_decimal(o.tokens), " tok"@)
}

/// The summary of a request on one line: the time of day, what is known of its start, and how it
/// ended. Each figure stands there once; what is not known is left out.
pub open spec fn summary_text(
    clock: Seq<char>,
    head: Seq<char>,
    start_bytes: Option<nat>,
    id: Seq<char>,
    o: Outcome,
) -> Seq<char> {
    clock + " ▶ ["@ + id + "] "@ + head + " "@ + join(
        summary_parts(first_some(o.req_bytes, start_bytes), o),
        " · "@,
    ) + around(" "@, opt_detail(o.detail), ""@)
}

// ---------------------------------------------------------------------------
// Pieces of lines
// ---------------------------------------------------------------------------

/// The number that a machine integer stands for, where there is one.
pub open spec fn opt_nat(n: Option<u64>) -> Option<nat> {
    match n {
        Some(n) => Some(n as nat),
        None => None,
    }
}

/// The nanoseconds of a span, where there is one.
pub open spec fn opt_span(d: Option<Duration>) -> Option<nat> {
    match d {
        Some(d) => Some(d@),
        None => None,
    }
}

/// How a request ended, of the values that the log is given.
pub open spec fn outcome(
    status: u16,
    ok: bool,
    elapsed: Option<Duration>,
    first_byte: Option<Duration>,
    tokens: Option<u64>,
    req_bytes: Option<u64>,
    bytes: Option<u64>,
    detail: Seq<char>,
) -> Outcome {
    Outcome {
        status: status as nat,
        ok,
        elapsed: opt_span(elapsed),
        first_byte: opt_span(first_byte),
        tokens: opt_nat(tokens),
        req_bytes: opt_nat(req_bytes),
        bytes: opt_nat(bytes),
        detail,
    }
}

fn seconds_piece(d: Option<Duration>) -> (r: Option<String>)
    ensures
        opt_string(r) == opt_seconds(opt_span(d)),
{
    match d {
        Some(d) => Some(fmt_seconds(d)),
        None => None,
    }
}

fn duration_piece(d: Option<Duration>) -> (r: Option<String>)
    ensures
        opt_string(r) == opt_duration(opt_span(d)),
{
    match d {
        Some(d) => Some(fmt_duration(d)),
        None => None,
    }
}

fn millis_piece(d: Option<Duration>) -> (r: Option<String>)
    ensures
        opt_string(r) == opt_millis(opt_span(d)),
{
    match d {
        Some(d) => Some(decimal_text(d.as_millis())),
        None => None,
    }
}

fn bytes_piece(b: Option<u64>) -> (r: Option<String>)
    ensures
        opt_string(r) == opt_bytes(opt_nat(b)),
{
    match b {
        Some(b) => Some(fmt_bytes(b)),
        None => None,
    }
}

pub fn decimal_piece(n: Option<u64>) -> (r: Option<String>)
    ensures
        opt_string(r) == opt_decimal(opt_nat(n)),
{
    match n {
        Some(n) => Some(decimal_text(n as u128)),
        None => None,
    }
}

fn detail_piece(detail: &str) -> (r: Option<String>)
    ensures
        opt_string(r) == opt_detail(detail@),
{
    if detail.is_empty() {
        None
    } else {
        Some(detail.to_owned())
    }
}

/// Appends a piece that may be missing, with what stands around it.
pub fn append_piece(out: &mut String, before: &str, piece: Option<String>, after: &str)
    ensures
        final(out)@ == old(out)@ + around(before@, opt_string(piece), after@),
{
    let ghost start = out@;
    match piece {
        Some(p) => {
            out.append(before);
            out.append(p.as_str());
            out.append(after);
            assert(out@ =~= start + (before@ + p@ + after@));
        },
        None => {
            assert(out@ =~= start + Seq::<char>::empty());
        },
    }
}

/// Adds a piece that may be missing to a list, with what stands around it.
pub fn push_piece(parts: &mut Vec<String>, before: &str, piece: Option<String>, after: &str)
    ensures
        final(parts).deep_view() == old(parts).deep_view() + around_list(
            before@,
            opt_string(piece),
            after@,
        ),
{
    let ghost start = parts.deep_view();
    match piece {
        Some(p) => {
            let mut text = before.to_owned();
            text.append(p.as_str());
            text.append(after);
            parts.push(text);
            assert(parts.deep_view() =~= start + seq![before@ + p@ + after@]);
        },
        None => {
            assert(parts.deep_view() =~= start + Seq::<Seq<char>>::empty());
        },
    }
}

pub fn icon_of(ok: bool) -> (r: &'static str)
    ensures
        r@ == icon(ok),
{
    if ok {
        "✔"
    } else {
        "✘"
    }
}

fn status_color_of(status: u16) -> (r: &'static str)
    ensures
        r@ == status_color(status as nat),
{
    if 200 <= status && status < 300 {
        "1;32"
    } else {
        "1;31"
    }
}

/// A line of the log in plain text.
pub fn plain_line_of(stamp: &str, level: &str, msg: &str) -> (r: String)
    ensures
        r@ == plain_text(stamp@, level@, msg@),
{
    let mut out = stamp.to_owned();
    out.append(" [");
    out.append(centered(level, 5).as_str());
    out.append("] ");
    out.append(msg);
    out
}

/// A line of the log in color.
pub fn color_line_of(stamp: &str, level: &str, msg: &str) -> (r: String)
    ensures
        r@ == color_text(stamp@, level@, msg@),
{
    let mut out = stamp.to_owned();
    out.append(" [");
    if same_text(level, "ERROR") {
        out.append("\x1b[1;31m");
    } else if same_text(level, "WARN") {
        out.append("\x1b[1;33m");
    } else {
        out.append("\x1b[2m");
    }
    out.append(centered(level, 5).as_str());
    out.append("\x1b[0m");
    out.append("] ");
    out.append(msg);
    colorize_req_ids(out.as_str())
}

/// The line for the start of a request in the file.
pub fn start_line_of(
    req_id: &str,
    model: Option<&str>,
    method: &str,
    path: &str,
    upstream: &str,
    req_bytes: u64,
) -> (r: String)
    ensures
        r@ == start_text(
            req_id@,
            opt_str(model),
            method@,
            path@,
            upstream@,
            req_bytes as nat,
        ),
{
    let mut out = "[".to_owned();
    out.append(req_id);
    out.append("] -> ");
    out.append(model_or_dash(model));
    out.append(" ");
    out.append(method);
    out.append(" ");
    out.append(path);
    out.append(" (req ");
    out.append(fmt_bytes(req_bytes).as_str());
    out.append(") 转发至 ");
    out.append(upstream);
    out
}

pub fn model_or_dash<'a>(model: Option<&'a str>) -> (r: &'a str)
    ensures
        r@ == or_dash(opt_str(model)),
{
    match model {
        Some(m) => m,
        None => "-",
    }
}

pub fn start_tty_of(
    stamp: &str,
    req_id: &str,
    model: Option<&str>,
    upstream: &str,
    req_bytes: u64,
) -> (r: String)
    ensures
        r@ == start_tty(
            clock_text(stamp@),
            req_id@,
            opt_str(model),
            upstream@,
            req_bytes as nat,
        ),
{
    let mut out = "\x1b[2m".to_owned();
    out.append(clock_of(stamp).as_str());
    out.append("\x1b[0m \x1b[1;36m▶\x1b[0m \x1b[1;36m[");
    out.append(centered(req_id, 6).as_str());
    out.append("]\x1b[0m \x1b[1m");
    out.append(model_or_dash(model));
    out.append("\x1b[0m \x1b[34m→ ");
    out.append(shorten_upstream(upstream).as_str());
    out.append("\x1b[0m \x1b[1;32m↑\x1b[0m \x1b[2m");
    out.append(fmt_bytes(req_bytes).as_str());
    out.append("\x1b[0m");
    out
}

/// The line for the end of a request in the file.
pub fn finish_line_of(
    req_id: &str,
    status: u16,
    ok: bool,
    elapsed: Option<Duration>,
    first_byte: Option<Duration>,
    tokens: Option<u64>,
    req_bytes: Option<u64>,
    bytes: Option<u64>,
    detail: &str,
) -> (r: String)
    ensures
        r@ == finish_text(
            req_id@,
            outcome(status, ok, elapsed, first_byte, tokens, req_bytes, bytes, detail@),
        ),
{
    let mut out = "[".to_owned();
    out.append(req_id);
    out.append("] <- ");
    out.append(decimal_text(status as u128).as_str());
    append_piece(&mut out, " 耗时 ", seconds_piece(elapsed), "s");
    append_piece(&mut out, " 首包 ", millis_piece(first_byte), "ms");
    append_piece(&mut out, " req ", bytes_piece(req_bytes), "");
    append_piece(&mut out, " resp ", bytes_piece(bytes), "");
    append_piece(&mut out, " ", decimal_piece(tokens), " tok");
    append_piece(&mut out, " ", detail_piece(detail), "");
    out
}

pub fn finish_tty_of(
    stamp: &str,
    req_id: &str,
    status: u16,
    ok: bool,
    elapsed: Option<Duration>,
    first_byte: Option<Duration>,
    tokens: Option<u64>,
    req_bytes: Option<u64>,
    bytes: Option<u64>,
    detail: &str,
) -> (r: String)
    ensures
        r@ == finish_tty(
            clock_text(stamp@),
            req_id@,
            outcome(status, ok, elapsed, first_byte, tokens, req_bytes, bytes, detail@),
        ),
{
    let mut shown = "\x1b[".to_owned();
    shown.append(status_color_of(status));
    shown.append("m");
    shown.append(decimal_text(status as u128).as_str());
    shown.append("\x1b[0m");
    let mut parts: Vec<String> = Vec::new();
    parts.push(shown);
    assert(parts.deep_view() =~= seq![shown@]);
    push_piece(&mut parts, "\x1b[1;35m", duration_piece(elapsed), "\x1b[0m");
    push_piece(&mut parts, "\x1b[2m首包 ", millis_piece(first_byte), "ms\x1b[0m");
    push_piece(
        &mut parts,
        "\x1b[1;32m↑\x1b[0m \x1b[2m",
        bytes_piece(req_bytes),
        "\x1b[0m",
    );
    push_piece(&mut parts, "\x1b[34m↓\x1b[0m \x1b[2m", bytes_piece(bytes), "\x1b[0m");
    push_piece(&mut parts, "\x1b[2m", decimal_piece(tokens), " tok\x1b[0m");
    let mut out = "\x1b[2m".to_owned();
    out.append(clock_of(stamp).as_str());
    out.append("\x1b[0m \x1b[");
    out.append(status_color_of(status));
    out.append("m");
    out.append(icon_of(ok));
    out.append("\x1b[0m \x1b[1;36m[");
    out.append(centered(req_id, 6).as_str());
    out.append("]\x1b[0m ");
    out.append(join_texts(&parts, " \x1b[2m·\x1b[0m ").as_str());
    if ok {
        append_piece(&mut out, " ", detail_piece(detail), "");
    } else {
        append_piece(&mut out, " \x1b[1;31m", detail_piece(detail), "\x1b[0m");
    }
    out
}

/// The summary of a request on one line.
pub fn summary_of(
    clock: &str,
    head: &str,
    start_bytes: Option<u64>,
    req_id: &str,
    status: u16,
    ok: bool,
    elapsed: Option<Duration>,
    first_byte: Option<Duration>,
    tokens: Option<u64>,
    req_bytes: Option<u64>,
    bytes: Option<u64>,
    detail: &str,
) -> (r: String)
    ensures
        r@ == summary_text(
            clock@,
            head@,
            opt_nat(start_bytes),
            req_id@,
            outcome(status, ok, elapsed, first_byte, tokens, req_bytes, bytes, detail@),
        ),
{
    let req = match req_bytes {
        Some(b) => Some(b),
        None => start_bytes,
    };
    let mut ending = icon_of(ok).to_owned();
    ending.append(" ");
    ending.append(decimal_text(status as u128).as_str());
    append_piece(&mut ending, " ", duration_piece(elapsed), "");
    let mut parts: Vec<String> = Vec::new();
    assert(parts.deep_view() =~= Seq::<Seq<char>>::empty());
    push_piece(&mut parts, "↑ ", bytes_piece(req), "");
    let ghost before = parts.deep_view();
    proof {
        let up = around_list("↑ "@, opt_bytes(opt_nat(req)), ""@);
        assert(Seq::<Seq<char>>::empty() + up =~= up);
    }
    parts.push(ending);
    assert(parts.deep_view() =~= before + seq![ending@]);
    push_piece(&mut parts, "首包 ", millis_piece(first_byte), "ms");
    push_piece(&mut parts, "↓ ", bytes_piece(bytes), "");
    push_piece(&mut parts, "", decimal_piece(tokens), " tok");
    let mut out = clock.to_owned();
    out.append(" ▶ [");
    out.append(req_id);
    out.append("] ");
    out.append(head);
    out.append(" ");
    out.append(join_texts(&parts, " · ").as_str());
    append_piece(&mut out, " ", detail_piece(detail), "");
    out
}

// ---------------------------------------------------------------------------
// What the lines tell
// ---------------------------------------------------------------------------

/// Each part of a joined text is a part of it.
pub proof fn lemma_parts_stand_in_joined(parts: Seq<Seq<char>>, sep: Seq<char>, k: int)
    requires
        0 <= k < parts.len(),
    ensures
        stands_in(parts[k], join(parts, sep)),
    decreases parts.len(),
{
    let s = join(parts, sep);
    let p = parts[k];
    if parts.len() == 1 {
        assert(s.subrange(0int, 0int + p.len()) =~= p);
    } else if k == parts.len() - 1 {
        let n = s.len() - p.len();
        assert(s.subrange(n, n + p.len()) =~= p);
    } else {
        let front = parts.drop_last();
        lemma_parts_stand_in_joined(front, sep, k);
        let j = join(front, sep);
        let i = choose|i: int|
            0 <= i && i + p.len() <= j.len() && #[trigger] j.subrange(i, i + p.len()) == p;
        assert(s.subrange(i, i + p.len()) =~= j.subrange(i, i + p.len()));
    }
}

/// What is a part of a part is a part of the whole.
pub proof fn lemma_part_of_part(p: Seq<char>, a: Seq<char>, s: Seq<char>, b: Seq<char>)
    requires
        stands_in(p, s),
    ensures
        stands_in(p, a + s + b),
{
    let t = a + s + b;
    let i = choose|i: int|
        0 <= i && i + p.len() <= s.len() && #[trigger] s.subrange(i, i + p.len()) == p;
    let n = a.len() as int;
    assert(t.subrange(n + i, n + i + p.len()) =~= s.subrange(i, i + p.len()));
}

/// Whether a list of figures tells how a request ended: its success and status, how long it took,
/// the time to its first byte, the sizes of both bodies and the tokens, each where it is known.
pub open spec fn tells_outcome(s: Seq<char>, req_bytes: Option<nat>, o: Outcome) -> bool {
    &&& stands_in(
        (if o.ok {
            "✔ "@
        } else {
            "✘ "@
        }) + decimal(o.status),
        s,
    )
    &&& o.elapsed matches Some(d) ==> stands_in(duration_text(d), s)
    &&& o.first_byte matches Some(d) ==> stands_in("首包 "@ + decimal(d / 1_000_000) + "ms"@, s)
    &&& req_bytes matches Some(b) ==> stands_in("↑ "@ + bytes_text(b), s)
    &&& o.bytes matches Some(b) ==> stands_in("↓ "@ + bytes_text(b), s)
    &&& o.tokens matches Some(n) ==> stands_in(decimal(n) + " tok"@, s)
}

proof fn lemma_summary_parts_tell(req_bytes: Option<nat>, o: Outcome)
    ensures
        tells_outcome(join(summary_parts(req_bytes, o), " · "@), req_bytes, o),
{
    let sep = " · "@;
    let parts = summary_parts(req_bytes, o);
    let s = join(parts, sep);
    let a = around_list("↑ "@, opt_bytes(req_bytes), ""@);
    let first = icon(o.ok) + " "@ + decimal(o.status) + around(" "@, opt_duration(o.elapsed), ""@);
    let b = around_list("首包 "@, opt_millis(o.first_byte), "ms"@);
    let c = around_list("↓ "@, opt_bytes(o.bytes), ""@);
    let k = a.len() as int;
    let m = k + 1 + b.len();
    if let Some(n) = req_bytes {
        assert(stands_in("↑ "@ + bytes_text(n), s)) by {
            reveal_strlit("");
            assert(parts[0] == "↑ "@ + bytes_text(n) + ""@);
            assert(parts[0] =~= "↑ "@ + bytes_text(n));
            lemma_parts_stand_in_joined(parts, sep, 0);
        }
    }
    assert(parts[k] == first);
    assert(stands_in(first, s)) by {
        lemma_parts_stand_in_joined(parts, sep, k);
    }
    lemma_first_part_tells(o);
    lemma_part_within(
        (if o.ok {
            "✔ "@
        } else {
            "✘ "@
        }) + decimal(o.status),
        first,
        s,
    );
    if let Some(t) = o.elapsed {
        lemma_part_within(duration_text(t), first, s);
    }
    if let Some(t) = o.first_byte {
        assert(stands_in("首包 "@ + decimal(t / 1_000_000) + "ms"@, s)) by {
            assert(parts[k + 1] == "首包 "@ + decimal(t / 1_000_000) + "ms"@);
            lemma_parts_stand_in_joined(parts, sep, k + 1);
        }
    }
    if let Some(n) = o.bytes {
        assert(stands_in("↓ "@ + bytes_text(n), s)) by {
            reveal_strlit("");
            assert(parts[m] == "↓ "@ + bytes_text(n) + ""@);
            assert(parts[m] =~= "↓ "@ + bytes_text(n));
            lemma_parts_stand_in_joined(parts, sep, m);
        }
    }
    if let Some(n) = o.tokens {
        assert(stands_in(decimal(n) + " tok"@, s)) by {
            reveal_strlit("");
            assert(parts[m + c.len()] == ""@ + decimal(n) + " tok"@);
            assert(parts[m + c.len()] =~= decimal(n) + " tok"@);
            lemma_parts_stand_in_joined(parts, sep, m + c.len());
        }
    }
}

proof fn lemma_first_part_tells(o: Outcome)
    ensures
        ({
            let first = icon(o.ok) + " "@ + decimal(o.status) + around(
                " "@,
                opt_duration(o.elapsed),
                ""@,
            );
            &&& stands_in(
                (if o.ok {
                    "✔ "@
                } else {
                    "✘ "@
                }) + decimal(o.status),
                first,
            )
            &&& o.elapsed matches Some(d) ==> stands_in(duration_text(d), first)
        }),
{
    reveal_strlit("");
    reveal_strlit(" ");
    reveal_strlit("✔");
    reveal_strlit("✘");
    reveal_strlit("✔ ");
    reveal_strlit("✘ ");
    let first = icon(o.ok) + " "@ + decimal(o.status) + around(" "@, opt_duration(o.elapsed), ""@);
    let mark = (if o.ok {
        "✔ "@
    } else {
        "✘ "@
    }) + decimal(o.status);
    assert(first.subrange(0int, 0int + mark.len()) =~= mark);
    if let Some(t) = o.elapsed {
        let p = duration_text(t);
        let m = first.len() - p.len();
        assert(first.subrange(m, m + p.len()) =~= p);
    }
}

/// A part of what is a part.
pub proof fn lemma_part_within(p: Seq<char>, q: Seq<char>, s: Seq<char>)
    requires
        stands_in(p, q),
        stands_in(q, s),
    ensures
        stands_in(p, s),
{
    let i = choose|i: int|
        0 <= i && i + p.len() <= q.len() && #[trigger] q.subrange(i, i + p.len()) == p;
    let j = choose|j: int|
        0 <= j && j + q.len() <= s.len() && #[trigger] s.subrange(j, j + q.len()) == q;
    assert(s.subrange(j + i, j + i + p.len()) =~= s.subrange(j, j + q.len()).subrange(
        i,
        i + p.len(),
    ));
}

/// The summary of a request begins with the time of day, its id and what is known of its start,
/// tells every figure that is known of its end, and ends with what went wrong. The size of the
/// request is the one told at its end, or else the one told at its start.
pub proof fn law_summary_tells_every_figure(
    clock: Seq<char>,
    head: Seq<char>,
    start_bytes: Option<nat>,
    id: Seq<char>,
    o: Outcome,
)
    ensures
        ({
            let s = summary_text(clock, head, start_bytes, id, o);
            let size = if o.req_bytes is Some {
                o.req_bytes
            } else {
                start_bytes
            };
            &&& starts_with(s, clock + " ▶ ["@ + id + "] "@ + head + " "@)
            &&& tells_outcome(s, size, o)
            &&& o.detail.len() > 0 ==> ends_with(s, " "@ + o.detail)
        }),
{
    reveal_strlit("");
    let s = summary_text(clock, head, start_bytes, id, o);
    let size = first_some(o.req_bytes, start_bytes);
    let front = clock + " ▶ ["@ + id + "] "@ + head + " "@;
    let j = join(summary_parts(size, o), " · "@);
    let end = around(" "@, opt_detail(o.detail), ""@);
    assert(s =~= front + j + end);
    assert(s.take(front.len() as int) =~= front);
    lemma_summary_parts_tell(size, o);
    lemma_told_within(front, j, end, size, o);
    if o.detail.len() > 0 {
        let e = " "@ + o.detail;
        assert(s.skip(s.len() - e.len()) =~= e);
    }
}

proof fn lemma_told_within(
    a: Seq<char>,
    s: Seq<char>,
    b: Seq<char>,
    req_bytes: Option<nat>,
    o: Outcome,
)
    requires
        tells_outcome(s, req_bytes, o),
    ensures
        tells_outcome(a + s + b, req_bytes, o),
{
    lemma_part_of_part(
        (if o.ok {
            "✔ "@
        } else {
            "✘ "@
        }) + decimal(o.status),
        a,
        s,
        b,
    );
    if let Some(d) = o.elapsed {
        lemma_part_of_part(duration_text(d), a, s, b);
    }
    if let Some(d) = o.first_byte {
        lemma_part_of_part("首包 "@ + decimal(d / 1_000_000) + "ms"@, a, s, b);
    }
    if let Some(n) = req_bytes {
        lemma_part_of_part("↑ "@ + bytes_text(n), a, s, b);
    }
    if let Some(n) = o.bytes {
        lemma_part_of_part("↓ "@ + bytes_text(n), a, s, b);
    }
    if let Some(n) = o.tokens {
        lemma_part_of_part(decimal(n) + " tok"@, a, s, b);
    }
}

/// The line for the end of a request on a terminal tells the time of day, its success and its id,
/// and every figure that is known of its end; what went wrong stands behind them.
pub proof fn law_terminal_tells_every_figure(clock: Seq<char>, id: Seq<char>, o: Outcome)
    ensures
        ({
            let s = finish_tty(clock, id, o);
            &&& starts_with(s, "\x1b[2m"@ + clock + "\x1b[0m "@)
            &&& stands_in(
                if o.ok {
                    "✔"@
                } else {
                    "✘"@
                },
                s,
            )
            &&& stands_in("["@ + center(id, 6) + "]"@, s)
            &&& stands_in(decimal(o.status), s)
            &&& o.elapsed matches Some(d) ==> stands_in(duration_text(d), s)
            &&& o.first_byte matches Some(d) ==> stands_in(
                "首包 "@ + decimal(d / 1_000_000) + "ms"@,
                s,
            )
            &&& o.req_bytes matches Some(b) ==> stands_in(bytes_text(b), s)
            &&& o.bytes matches Some(b) ==> stands_in(bytes_text(b), s)
            &&& o.tokens matches Some(n) ==> stands_in(decimal(n) + " tok"@, s)
            &&& o.detail.len() > 0 ==> stands_in(o.detail, s)
        }),
{
    reveal_strlit("\x1b[2m");
    reveal_strlit("\x1b[0m");
    reveal_strlit("\x1b[0m ");
    reveal_strlit("\x1b[0m \x1b[");
    reveal_strlit("\x1b[0m \x1b[1;36m[");
    reveal_strlit("]\x1b[0m ");
    reveal_strlit("[");
    reveal_strlit("]");
    reveal_strlit("");
    reveal_strlit(" tok");
    reveal_strlit(" tok\x1b[0m");
    reveal_strlit("ms");
    reveal_strlit("ms\x1b[0m");
    reveal_strlit("首包 ");
    reveal_strlit("\x1b[2m首包 ");
    let s = finish_tty(clock, id, o);
    let color = status_color(o.status);
    let sep = " \x1b[2m·\x1b[0m "@;
    let parts = finish_parts(o);
    let j = join(parts, sep);
    let end = if o.ok {
        around(" "@, opt_detail(o.detail), ""@)
    } else {
        around(" \x1b[1;31m"@, opt_detail(o.detail), "\x1b[0m"@)
    };
    let a = "\x1b[2m"@ + clock + "\x1b[0m \x1b["@ + color + "m"@;
    let b = "\x1b[0m \x1b[1;36m["@ + center(id, 6) + "]\x1b[0m "@;
    let mark = icon(o.ok);
    let front = a + mark + b;
    assert(s =~= front + j + end);
    let t = "\x1b[2m"@ + clock + "\x1b[0m "@;
    assert(s.take(t.len() as int) =~= t);
    let n = a.len() as int;
    assert(s.subrange(n, n + mark.len()) =~= mark);
    let shown = "["@ + center(id, 6) + "]"@;
    let k = n + mark.len() + "\x1b[0m \x1b[1;36m["@.len() - 1;
    assert(s.subrange(k, k + shown.len()) =~= shown);
    lemma_finish_parts_tell(o);
    lemma_part_of_part(decimal(o.status), front, j, end);
    if let Some(d) = o.elapsed {
        lemma_part_of_part(duration_text(d), front, j, end);
    }
    if let Some(d) = o.first_byte {
        lemma_part_of_part("首包 "@ + decimal(d / 1_000_000) + "ms"@, front, j, end);
    }
    if let Some(x) = o.req_bytes {
        lemma_part_of_part(bytes_text(x), front, j, end);
    }
    if let Some(x) = o.bytes {
        lemma_part_of_part(bytes_text(x), front, j, end);
    }
    if let Some(x) = o.tokens {
        lemma_part_of_part(decimal(x) + " tok"@, front, j, end);
    }
    if o.detail.len() > 0 {
        let m = s.len() - end.len() + (if o.ok {
            " "@.len()
        } else {
            " \x1b[1;31m"@.len()
        });
        assert(s.subrange(m, m + o.detail.len()) =~= o.detail);
    }
}

/// A piece between two texts is a part of what they make.
proof fn lemma_piece_of_part(
    parts: Seq<Seq<char>>,
    sep: Seq<char>,
    k: int,
    a: Seq<char>,
    p: Seq<char>,
    b: Seq<char>,
)
    requires
        0 <= k < parts.len(),
        parts[k] == a + p + b,
    ensures
        stands_in(p, join(parts, sep)),
{
    let q = parts[k];
    let n = a.len() as int;
    assert(q.subrange(n, n + p.len()) =~= p);
    lemma_parts_stand_in_joined(parts, sep, k);
    lemma_part_within(p, q, join(parts, sep));
}

proof fn lemma_finish_parts_tell(o: Outcome)
    ensures
        ({
            let s = join(finish_parts(o), " \x1b[2m·\x1b[0m "@);
            &&& stands_in(decimal(o.status), s)
            &&& o.elapsed matches Some(d) ==> stands_in(duration_text(d), s)
            &&& o.first_byte matches Some(d) ==> stands_in(
                "首包 "@ + decimal(d / 1_000_000) + "ms"@,
                s,
            )
            &&& o.req_bytes matches Some(b) ==> stands_in(bytes_text(b), s)
            &&& o.bytes matches Some(b) ==> stands_in(bytes_text(b), s)
            &&& o.tokens matches Some(n) ==> stands_in(decimal(n) + " tok"@, s)
        }),
{
    reveal_strlit("\x1b[2m");
    reveal_strlit("\x1b[0m");
    reveal_strlit(" tok");
    reveal_strlit(" tok\x1b[0m");
    reveal_strlit("ms");
    reveal_strlit("ms\x1b[0m");
    reveal_strlit("首包 ");
    reveal_strlit("\x1b[2m首包 ");
    let sep = " \x1b[2m·\x1b[0m "@;
    let parts = finish_parts(o);
    let dim = "\x1b[2m"@;
    let reset = "\x1b[0m"@;
    let a = around_list("\x1b[1;35m"@, opt_duration(o.elapsed), reset);
    let b = around_list("\x1b[2m首包 "@, opt_millis(o.first_byte), "ms\x1b[0m"@);
    let c = around_list("\x1b[1;32m↑\x1b[0m \x1b[2m"@, opt_bytes(o.req_bytes), reset);
    let d = around_list("\x1b[34m↓\x1b[0m \x1b[2m"@, opt_bytes(o.bytes), reset);
    lemma_piece_of_part(
        parts,
        sep,
        0,
        "\x1b["@ + status_color(o.status) + "m"@,
        decimal(o.status),
        reset,
    );
    if let Some(t) = o.elapsed {
        lemma_piece_of_part(parts, sep, 1, "\x1b[1;35m"@, duration_text(t), reset);
    }
    let m = 1 + a.len();
    if let Some(t) = o.first_byte {
        let p = "首包 "@ + decimal(t / 1_000_000) + "ms"@;
        assert(parts[m as int] =~= dim + p + reset);
        lemma_piece_of_part(parts, sep, m as int, dim, p, reset);
    }
    let m = m + b.len();
    if let Some(x) = o.req_bytes {
        lemma_piece_of_part(
            parts,
            sep,
            m as int,
            "\x1b[1;32m↑\x1b[0m \x1b[2m"@,
            bytes_text(x),
            reset,
        );
    }
    let m = m + c.len();
    if let Some(x) = o.bytes {
        lemma_piece_of_part(parts, sep, m as int, "\x1b[34m↓\x1b[0m \x1b[2m"@, bytes_text(x), reset);
    }
    let m = m + d.len();
    if let Some(x) = o.tokens {
        let p = decimal(x) + " tok"@;
        assert(parts[m as int] =~= dim + p + reset);
        lemma_piece_of_part(parts, sep, m as int, dim, p, reset);
    }
}

/// The line for the start of a request on a terminal tells the time of day, its id, its model,
/// where it goes, and its size.
pub proof fn law_terminal_tells_the_start(
    clock: Seq<char>,
    id: Seq<char>,
    model: Seq<char>,
    upstream: Seq<char>,
    req_bytes: nat,
)
    ensures
        ({
            let s = start_tty(clock, id, Some(model), upstream, req_bytes);
            &&& starts_with(s, "\x1b[2m"@ + clock)
            &&& stands_in(center(id, 6), s)
            &&& stands_in(model, s)
            &&& stands_in("→ "@ + short_upstream(upstream), s)
            &&& stands_in(bytes_text(req_bytes), s)
        }),
{
    reveal_strlit("→ ");
    reveal_strlit("\x1b[0m \x1b[34m→ ");
    let s = start_tty(clock, id, Some(model), upstream, req_bytes);
    let a = "\x1b[2m"@ + clock;
    let b = a + "\x1b[0m \x1b[1;36m▶\x1b[0m \x1b[1;36m["@;
    let c = b + center(id, 6) + "]\x1b[0m \x1b[1m"@;
    let d = c + model + "\x1b[0m \x1b[34m→ "@;
    let e = d + short_upstream(upstream) + "\x1b[0m \x1b[1;32m↑\x1b[0m \x1b[2m"@;
    assert(s.take(a.len() as int) =~= a);
    let p = center(id, 6);
    assert(s.subrange(b.len() as int, b.len() as int + p.len()) =~= p);
    assert(s.subrange(c.len() as int, c.len() as int + model.len()) =~= model);
    let q = "→ "@ + short_upstream(upstream);
    let k = d.len() - 2;
    assert(s.subrange(k, k + q.len()) =~= q);
    let r = bytes_text(req_bytes);
    assert(s.subrange(e.len() as int, e.len() as int + r.len()) =~= r);
}

/// On a terminal a status of the form 2xx is green, every other one red; the level of a line is
/// red for an error, yellow for a warning, and dim else.
pub proof fn law_colors_tell_good_from_bad(status: nat, level: Seq<char>)
    ensures
        status_color(status) == (if status / 100 == 2 {
            "1;32"@
        } else {
            "1;31"@
        }),
        level_color("ERROR"@) == "\x1b[1;31m"@,
        level_color("WARN"@) == "\x1b[1;33m"@,
        level != "ERROR"@ && level != "WARN"@ ==> level_color(level) == "\x1b[2m"@,
{
    reveal_strlit("ERROR");
    reveal_strlit("WARN");
    assert("ERROR"@.len() != "WARN"@.len());
}

} // verus!
