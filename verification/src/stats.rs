//! The statistics: one line of JSON for each request, and what they add up to.
use crate::clock::Duration;
use crate::console::{bullet_line, bullet_text, if_tty, on_tty};
use crate::decimal::{
    all_digits, decimal, decimal_text, decimal_value, is_digit, lemma_decimal_reads_back,
};
use crate::format::{
    duration_text, fmt_duration, is_near, law_span_is_shown, lemma_tenths, shows_span, shows_tenths,
    DOUBLE,
};
use crate::json::{
    are_plain, doc_at, is_document, json_at, lemma_document_is_not_malformed, lookup, member_at,
    object_text, Doc, Json, JsonView,
};
use crate::proxy::{stats_members, stats_text};
use crate::rounding::{
    half_even, half_even_of, law_half_even_is_near, law_rounded_is_near,
    law_rounded_quotient_is_close, lemma_half_even, lemma_rounded, lemma_spacing,
    lemma_spacing_is_small, rounded, rounded_quotient, rounded_to, spacing, spacing_at, tenths_of,
    tenths_text,
};
use crate::text::{
    blank, chars_of, ends_with, spaces, stands_in, text_of, trim_start_char, trim_start_char_of,
};
use crate::utf8::lemma_encode_concat;
use vstd::prelude::*;
use vstd::utf8::{char_is_scalar, encode_scalar, encode_utf8};

verus! {

// ---------------------------------------------------------------------------
// Counting
// ---------------------------------------------------------------------------

/// What the requests add up to.
pub struct Totals {
    /// How many there were.
    pub count: u64,
    /// How many were successful.
    pub ok: u64,
    /// How many were not.
    pub err: u64,
    /// How many milliseconds they took together.
    pub total_ms: u128,
    /// How many milliseconds the longest took.
    pub max_ms: u64,
}

impl Totals {
    /// The invariant: every request is counted as a success or not, and the sum of the times is
    /// one of as many times.
    pub open spec fn wf(&self) -> bool {
        &&& self.ok + self.err == self.count
        &&& self.total_ms <= self.count * u64::MAX
    }

    /// No requests.
    pub fn new() -> (r: Self)
        ensures
            r.wf(),
            r == (Totals { count: 0, ok: 0, err: 0, total_ms: 0, max_ms: 0 }),
    {
        Totals { count: 0, ok: 0, err: 0, total_ms: 0, max_ms: 0 }
    }
}

/// The instant that `chrono::DateTime::parse_from_rfc3339` reads from a text, as seconds since
/// 1970 and nanoseconds.
pub uninterp spec fn instant_in(text: Seq<char>) -> Option<(i64, u32)>;

/// Calls `chrono::DateTime::parse_from_rfc3339`, and `timestamp` and `timestamp_subsec_nanos` on
/// what it returns. The result is a function of the text. Which texts are dates is not said.
#[verifier::external_body]
fn parse_instant(text: &str) -> (r: Option<(i64, u32)>)
    ensures
        r == instant_in(text@),
{
    match chrono::DateTime::parse_from_rfc3339(text) {
        Ok(t) => Some((t.timestamp(), t.timestamp_subsec_nanos())),
        Err(_) => None,
    }
}

/// The first instant that is asked for: so many days of 86400 seconds before the present, and none
/// where no days are given.
pub fn since_of(now: (i64, u32), days: u32) -> (r: Option<(i64, u32)>)
    requires
        now.0 - days * 86400 >= i64::MIN,
    ensures
        r == (if days == 0 {
            None
        } else {
            Some(((now.0 - days * 86400) as i64, now.1))
        }),
{
    if days == 0 {
        None
    } else {
        Some((now.0 - days as i64 * 86400, now.1))
    }
}

/// Whether an instant lies before another.
pub open spec fn earlier(a: (i64, u32), b: (i64, u32)) -> bool {
    a.0 < b.0 || (a.0 == b.0 && a.1 < b.1)
}

/// Whether a request is too old to be counted: its instant is known and lies before the first
/// that is asked for.
pub open spec fn too_old(instant: Option<(i64, u32)>, since: Option<(i64, u32)>) -> bool {
    match (instant, since) {
        (Some(t), Some(first)) => earlier(t, first),
        _ => false,
    }
}

/// A number in a JSON document, or 0.
pub open spec fn number_or_zero(found: JsonView) -> u64 {
    match found {
        JsonView::Unsigned(n) => n,
        _ => 0,
    }
}

/// A text in a JSON document, or nothing.
pub open spec fn text_or_nothing(found: JsonView) -> Seq<char> {
    match found {
        JsonView::Text(s) => s,
        _ => ""@,
    }
}

/// The totals with one more request.
pub open spec fn with_request(t: Totals, status: u64, ms: u64) -> Totals {
    Totals {
        count: (t.count + 1) as u64,
        ok: if 200 <= status < 300 {
            (t.ok + 1) as u64
        } else {
            t.ok
        },
        err: if 200 <= status < 300 {
            t.err
        } else {
            (t.err + 1) as u64
        },
        total_ms: (t.total_ms + ms) as u128,
        max_ms: if ms > t.max_ms {
            ms
        } else {
            t.max_ms
        },
    }
}

/// Counts a request with the given status and time.
pub fn count_request(t: &mut Totals, status: u64, ms: u64)
    requires
        old(t).wf(),
        old(t).count < u64::MAX,
    ensures
        final(t).wf(),
        *final(t) == with_request(*old(t), status, ms),
        final(t).count == old(t).count + 1,
        final(t).total_ms == old(t).total_ms + ms,
        final(t).ok == old(t).ok + if status / 100 == 2 {
            1nat
        } else {
            0nat
        },
        final(t).max_ms == (if ms > old(t).max_ms {
            ms
        } else {
            old(t).max_ms
        }),
{
    assert(t.count * u64::MAX + u64::MAX == (t.count + 1) * u64::MAX) by (nonlinear_arith);
    assert(t.count * u64::MAX <= u64::MAX * u64::MAX) by (nonlinear_arith)
        requires
            t.count <= u64::MAX,
    ;
    t.count = t.count + 1;
    if 200 <= status && status < 300 {
        t.ok = t.ok + 1;
    } else {
        t.err = t.err + 1;
    }
    t.total_ms = t.total_ms + ms as u128;
    if ms > t.max_ms {
        t.max_ms = ms;
    }
}

/// The totals with one more line of the file. A line that is not JSON is left out, and so is one
/// that is too old.
pub open spec fn with_line(t: Totals, line: Seq<char>, since: Option<(i64, u32)>) -> Totals {
    let bytes = encode_utf8(line);
    let ts = text_or_nothing(json_at(bytes, "ts"@, None));
    if json_at(bytes, "ts"@, None) is Malformed || too_old(instant_in(ts), since) {
        t
    } else {
        with_request(
            t,
            number_or_zero(json_at(bytes, "status"@, None)),
            number_or_zero(json_at(bytes, "elapsed_ms"@, None)),
        )
    }
}

fn number_in(found: Json) -> (r: u64)
    ensures
        r == number_or_zero(found@),
{
    match found {
        Json::Unsigned(n) => n,
        _ => 0,
    }
}

/// What the line for a request says is found in it.
proof fn lemma_stats_members(ts: Seq<char>, id: Seq<char>, elapsed_ms: u64, status: u16)
    ensures
        ({
            let members = stats_members(ts, id, elapsed_ms, status);
            &&& are_plain(members)
            &&& member_at(members, "ts"@) == JsonView::Text(ts)
            &&& member_at(members, "status"@) == JsonView::Unsigned(status as u64)
            &&& member_at(members, "elapsed_ms"@) == JsonView::Unsigned(elapsed_ms)
        }),
{
    let members = stats_members(ts, id, elapsed_ms, status);
    reveal_strlit("elapsed_ms");
    reveal_strlit("id");
    reveal_strlit("status");
    reveal_strlit("ts");
    assert("ts"@.len() == 2 && "id"@.len() == 2 && "ts"@[0] != "id"@[0]);
    assert("status"@.len() == 6 && "elapsed_ms"@.len() == 10);
    let three = members.drop_last();
    let two = three.drop_last();
    let one = two.drop_last();
    assert(three.last() == members[2]);
    assert(two.last() == members[1]);
    assert(one.last() == members[0]);
    reveal_with_fuel(member_at, 4);
}

/// Counts a line of the file. `since` is the first instant that is asked for, if one is. A line
/// that was written for a request counts that request.
pub fn count_line(t: &mut Totals, line: &str, since: Option<(i64, u32)>)
    requires
        old(t).wf(),
        old(t).count < u64::MAX,
    ensures
        final(t).wf(),
        *final(t) == with_line(*old(t), line@, since),
        forall|ts: Seq<char>, id: Seq<char>, elapsed_ms: u64, status: u16|
            line@ == #[trigger] stats_text(ts, id, elapsed_ms, status) ==> *final(t) == (
            if too_old(instant_in(ts), since) {
                *old(t)
            } else {
                with_request(*old(t), status as u64, elapsed_ms)
            }),
        forall|d: Doc| #[trigger]
            is_document(encode_utf8(line@), d) ==> *final(t) == (if too_old(
                instant_in(
                    match doc_at(d, "ts"@, None) {
                        JsonView::Text(ts) => ts,
                        _ => ""@,
                    },
                ),
                since,
            ) {
                *old(t)
            } else {
                with_request(
                    *old(t),
                    match doc_at(d, "status"@, None) {
                        JsonView::Unsigned(n) => n,
                        _ => 0,
                    },
                    match doc_at(d, "elapsed_ms"@, None) {
                        JsonView::Unsigned(n) => n,
                        _ => 0,
                    },
                )
            }),
        final(t).count <= old(t).count + 1,
{
    proof {
        assert forall|ts: Seq<char>, id: Seq<char>, elapsed_ms: u64, status: u16|
            line@ == #[trigger] stats_text(ts, id, elapsed_ms, status) implies ({
            let members = stats_members(ts, id, elapsed_ms, status);
            &&& encode_utf8(line@) == encode_utf8(object_text(members))
            &&& are_plain(members)
            &&& member_at(members, "ts"@) == JsonView::Text(ts)
            &&& member_at(members, "status"@) == JsonView::Unsigned(status as u64)
            &&& member_at(members, "elapsed_ms"@) == JsonView::Unsigned(elapsed_ms)
        }) by {
            lemma_stats_members(ts, id, elapsed_ms, status);
        }
    }
    let bytes = line.as_bytes();
    let ts = match lookup(bytes, "ts", None) {
        Json::Malformed => {
            proof {
                assert forall|d: Doc| #[trigger] is_document(encode_utf8(line@), d) implies false by {
                    lemma_document_is_not_malformed(d, "ts"@, None);
                }
            }
            return ;
        },
        Json::Text(s) => s,
        _ => "".to_owned(),
    };
    if let Some(first) = since {
        if let Some(at) = parse_instant(ts.as_str()) {
            if at.0 < first.0 || (at.0 == first.0 && at.1 < first.1) {
                return ;
            }
        }
    }
    let status = number_in(lookup(bytes, "status", None));
    let ms = number_in(lookup(bytes, "elapsed_ms", None));
    count_request(t, status, ms);
}

/// The totals of the lines of the file.
pub open spec fn totals_of(lines: Seq<Seq<char>>, since: Option<(i64, u32)>) -> Totals
    decreases lines.len(),
{
    if lines.len() == 0 {
        Totals { count: 0, ok: 0, err: 0, total_ms: 0, max_ms: 0 }
    } else {
        with_line(totals_of(lines.drop_last(), since), lines.last(), since)
    }
}

/// The lines that are written for requests, each with its time, its id, how many milliseconds it
/// took and its status.
pub open spec fn written(requests: Seq<(Seq<char>, Seq<char>, u64, u16)>) -> Seq<Seq<char>> {
    Seq::new(
        requests.len(),
        |i: int| stats_text(requests[i].0, requests[i].1, requests[i].2, requests[i].3),
    )
}

/// The totals of requests, without those that are too old.
pub open spec fn totals_of_requests(
    requests: Seq<(Seq<char>, Seq<char>, u64, u16)>,
    since: Option<(i64, u32)>,
) -> Totals
    decreases requests.len(),
{
    if requests.len() == 0 {
        Totals { count: 0, ok: 0, err: 0, total_ms: 0, max_ms: 0 }
    } else {
        let (ts, id, elapsed_ms, status) = requests.last();
        let before = totals_of_requests(requests.drop_last(), since);
        if too_old(instant_in(ts), since) {
            before
        } else {
            with_request(before, status as u64, elapsed_ms)
        }
    }
}

/// Counts the lines of the file. The lines that were written for requests give the totals of
/// those requests.
pub fn count_lines(lines: &Vec<String>, since: Option<(i64, u32)>) -> (r: Totals)
    ensures
        r.wf(),
        r == totals_of(lines.deep_view(), since),
        r.count <= lines@.len(),
        forall|requests: Seq<(Seq<char>, Seq<char>, u64, u16)>|
            lines.deep_view() == #[trigger] written(requests) ==> r == totals_of_requests(
                requests,
                since,
            ),
{
    let mut t = Totals::new();
    let n = lines.len();
    let ghost all = lines.deep_view();
    assert(all.take(0) =~= Seq::<Seq<char>>::empty());
    for i in 0..n
        invariant
            n == lines@.len(),
            all == lines.deep_view(),
            t.wf(),
            t == totals_of(all.take(i as int), since),
            t.count <= i,
            forall|requests: Seq<(Seq<char>, Seq<char>, u64, u16)>|
                all == #[trigger] written(requests) ==> t == totals_of_requests(
                    requests.take(i as int),
                    since,
                ),
    {
        proof {
            assert(all.take(i + 1).drop_last() =~= all.take(i as int));
            assert(all.take(i + 1).last() == lines[i as int]@);
        }
        count_line(&mut t, lines[i].as_str(), since);
        proof {
            assert forall|requests: Seq<(Seq<char>, Seq<char>, u64, u16)>|
                all == #[trigger] written(requests) implies t == totals_of_requests(
                requests.take(i + 1),
                since,
            ) by {
                let (ts, id, elapsed_ms, status) = requests[i as int];
                assert(written(requests).len() == requests.len());
                assert(all[i as int] == stats_text(ts, id, elapsed_ms, status));
                assert(requests.take(i + 1).drop_last() =~= requests.take(i as int));
            }
        }
    }
    proof {
        assert(all.take(n as int) =~= all);
        assert forall|requests: Seq<(Seq<char>, Seq<char>, u64, u16)>|
            all == #[trigger] written(requests) implies t == totals_of_requests(requests, since) by {
            assert(written(requests).len() == requests.len());
            assert(requests.take(n as int) =~= requests);
        }
    }
    t
}

// ---------------------------------------------------------------------------
// Showing
// ---------------------------------------------------------------------------

/// One, in the fixed-point format of [`percentage`].
pub const ONE_PERCENT: u128 = 0x200_0000_0000_0000;

/// How many percent `ok` is of `count`, in units of 2^-57 and in double precision: both are
/// converted, one is multiplied by 100, and the quotient is taken.
pub open spec fn percentage(ok: nat, count: nat) -> nat {
    rounded_quotient(
        rounded(rounded(ok, DOUBLE as nat) * 100, DOUBLE as nat) * ONE_PERCENT as nat,
        rounded(count, DOUBLE as nat),
        DOUBLE as nat,
    )
}

/// How many percent `ok` is of `count`, with one digit after the point.
pub open spec fn percent_text(ok: nat, count: nat) -> Seq<char> {
    tenths_text(half_even(percentage(ok, count) * 10, ONE_PERCENT as nat))
}

proof fn lemma_rounded_is_near(n: nat)
    requires
        n <= 0x1_0000_0000_0000_0000 * 128,
    ensures
        rounded(n, DOUBLE as nat) <= n + 0x100_0000,
{
    let limit = DOUBLE as nat;
    let step = spacing(n, limit);
    lemma_spacing(n, limit);
    lemma_spacing_is_small(n, limit);
    lemma_half_even(n, step);
    if n >= limit {
        assert(step <= 0x100_0000) by (nonlinear_arith)
            requires
                step * limit <= 2 * n,
                n <= 0x1_0000_0000_0000_0000 * 128,
                limit == 0x20_0000_0000_0000,
        ;
    } else {
        assert(half_even(n, 1) == n);
    }
}

/// Shows how many percent `ok` is of `count`.
pub fn fmt_percent(ok: u64, count: u64) -> (r: String)
    requires
        0 < count,
        ok <= count,
    ensures
        r@ == percent_text(ok as nat, count as nat),
        shows_share(r@, ok as nat, count as nat),
{
    proof {
        law_share_is_shown(ok as nat, count as nat);
        let limit = DOUBLE as nat;
        lemma_rounded_is_near(ok as nat);
        lemma_rounded_is_near(rounded(ok as nat, limit) * 100);
        lemma_rounded(ok as nat, limit);
        lemma_rounded(rounded(ok as nat, limit) * 100, limit);
        lemma_rounded(count as nat, limit);
    }
    let a: u128 = rounded_to(ok as u128, DOUBLE);
    let b: u128 = rounded_to(a * 100, DOUBLE);
    let c: u128 = rounded_to(count as u128, DOUBLE);
    let n: u128 = b * ONE_PERCENT;
    let q: u128 = n / c;
    assert(q <= 800 * ONE_PERCENT && q * c <= n) by (nonlinear_arith)
        requires
            q == n / c,
            c > 0,
            n == b * ONE_PERCENT,
            b <= 800 * c,
            ONE_PERCENT == 0x200_0000_0000_0000,
    ;
    let step: u128 = spacing_at(q, DOUBLE);
    proof {
        lemma_spacing(q as nat, DOUBLE as nat);
        assert(c * step <= n || c * step == c) by (nonlinear_arith)
            requires
                q * c <= n,
                step <= q || step == 1,
        ;
        assert(c * step > 0) by (nonlinear_arith)
            requires
                c > 0,
                step > 0,
        ;
        let h = half_even(n as nat, c as nat * step as nat);
        lemma_half_even(n as nat, c as nat * step as nat);
        assert(h * (c as nat * step as nat) == (h * step as nat) * c as nat) by (nonlinear_arith);
        assert(n < (q + 1) * c) by (nonlinear_arith)
            requires
                q == n / c,
                c > 0,
        ;
        assert(h * step as nat <= q + 1 + step) by (nonlinear_arith)
            requires
                (h * step as nat) * c as nat <= n + c as nat * step as nat,
                n < (q + 1) * c,
                c > 0,
        ;
    }
    let near: u128 = half_even_of(n, c * step) * step;
    tenths_of(half_even_of(near * 10, ONE_PERCENT))
}

/// How wide a text is on a terminal: characters from the East Asian blocks on take two columns.
pub open spec fn display_width(s: Seq<char>) -> nat
    decreases s.len(),
{
    if s.len() == 0 {
        0
    } else {
        display_width(s.drop_last()) + if s.last() > '\u{2e80}' {
            2nat
        } else {
            1nat
        }
    }
}

proof fn lemma_wide_characters_are_long(c: char)
    ensures
        encode_scalar(c as u32).len() >= 1,
        c > '\u{2e80}' ==> encode_scalar(c as u32).len() >= 2,
{
    char_is_scalar(c);
}

/// A text is no wider than it is long in bytes: wide characters take three or four of them.
proof fn lemma_width_is_bounded(s: Seq<char>)
    ensures
        display_width(s) <= encode_utf8(s).len(),
    decreases s.len(),
{
    if s.len() > 0 {
        let last = seq![s.last()];
        lemma_width_is_bounded(s.drop_last());
        lemma_encode_concat(s.drop_last(), last);
        assert(s.drop_last() + last =~= s);
        let c = s.last();
        lemma_wide_characters_are_long(c);
        assert(last.drop_first() =~= Seq::<char>::empty());
        assert(encode_utf8(last.drop_first()).len() == 0);
        assert(encode_utf8(last) == encode_scalar(c as u32) + encode_utf8(last.drop_first()));
    }
}

/// The start of a text is no wider than the whole.
proof fn lemma_width_of_start(s: Seq<char>, k: int)
    requires
        0 <= k <= s.len(),
    ensures
        display_width(s.take(k)) <= display_width(s),
    decreases s.len() - k,
{
    if k < s.len() {
        lemma_width_of_start(s, k + 1);
        assert(s.take(k + 1).drop_last() =~= s.take(k));
    } else {
        assert(s.take(k) =~= s);
    }
}

/// How wide a text is on a terminal.
pub fn width_of(s: &str) -> (r: usize)
    ensures
        r == display_width(s@),
{
    let bytes = s.as_bytes().len();
    let cs = chars_of(s);
    let mut width: usize = 0;
    proof {
        lemma_width_is_bounded(s@);
        assert(cs@.take(0) =~= Seq::<char>::empty());
    }
    for i in 0..cs.len()
        invariant
            cs@ == s@,
            display_width(s@) <= bytes,
            width == display_width(cs@.take(i as int)),
    {
        proof {
            assert(cs@.take(i + 1).drop_last() =~= cs@.take(i as int));
            lemma_width_of_start(cs@, i + 1);
        }
        width += if cs[i] > '\u{2e80}' {
            2
        } else {
            1
        };
    }
    assert(cs@.take(cs@.len() as int) =~= cs@);
    width
}

/// The column at which values begin.
pub const VALUE_COLUMN: usize = 11;

/// A row: a dim label, filled up to the column of the values, and a value.
pub open spec fn row_text(tty: bool, label: Seq<char>, value: Seq<char>) -> Seq<char> {
    on_tty(tty, "\x1b[2m"@) + label + on_tty(tty, "\x1b[0m"@) + spaces(
        (VALUE_COLUMN - display_width(label)) as nat,
    ) + value
}

/// A row.
pub fn row(tty: bool, label: &str, value: &str) -> (r: String)
    requires
        display_width(label@) <= VALUE_COLUMN,
    ensures
        r@ == row_text(tty, label@, value@),
{
    let mut out = if_tty(tty, "\x1b[2m").to_owned();
    out.append(label);
    out.append(if_tty(tty, "\x1b[0m"));
    out.append(blank(VALUE_COLUMN - width_of(label)).as_str());
    out.append(value);
    out
}

/// What stands behind the title: the days that were asked for.
pub open spec fn days_text(days: nat) -> Seq<char> {
    if days > 0 {
        " · 最近 "@ + decimal(days) + " 天"@
    } else {
        ""@
    }
}

fn days_of(days: u32) -> (r: String)
    ensures
        r@ == days_text(days as nat),
{
    if days > 0 {
        let mut out = " · 最近 ".to_owned();
        out.append(decimal_text(days as u128).as_str());
        out.append(" 天");
        out
    } else {
        "".to_owned()
    }
}

/// What is said where there is no file.
pub fn no_file(path: &str) -> (r: String)
    ensures
        r@ == "● Stats · 暂无数据（"@ + path@ + " 不存在，先跑一些请求）"@,
{
    let mut out = "● Stats · 暂无数据（".to_owned();
    out.append(path);
    out.append(" 不存在，先跑一些请求）");
    out
}

/// What is said where no request was counted.
pub fn no_requests(days: u32) -> (r: String)
    ensures
        r@ == "● Stats"@ + days_text(days as nat) + " · 所选时间范围内没有请求"@,
{
    let mut out = "● Stats".to_owned();
    out.append(days_of(days).as_str());
    out.append(" · 所选时间范围内没有请求");
    out
}

/// A value in the given color.
pub open spec fn in_color(tty: bool, color: Seq<char>, text: Seq<char>) -> Seq<char> {
    on_tty(tty, color) + text + on_tty(tty, "\x1b[0m"@)
}

fn colored_value(tty: bool, color: &str, text: &str) -> (r: String)
    ensures
        r@ == in_color(tty, color@, text@),
{
    let mut out = if_tty(tty, color).to_owned();
    out.append(text);
    out.append(if_tty(tty, "\x1b[0m"));
    out
}

/// A time in milliseconds as it is shown, without the plus sign that it has in the log.
pub open spec fn time_text(ms: nat) -> Seq<char> {
    trim_start_char(duration_text(ms * 1_000_000), '+')
}

fn time_of(ms: u64) -> (r: String)
    ensures
        r@ == time_text(ms as nat),
{
    let shown = fmt_duration(Duration::from_millis(ms));
    let cs = chars_of(shown.as_str());
    text_of(trim_start_char_of(cs.as_slice(), '+'))
}

/// The title over the totals.
pub open spec fn title_text(days: nat, tty: bool) -> Seq<char> {
    bullet_text(tty, "\x1b[36m"@, "Stats"@) + (if days > 0 {
        in_color(tty, "\x1b[2m"@, days_text(days))
    } else {
        ""@
    })
}

fn title_of(days: u32, tty: bool) -> (r: String)
    ensures
        r@ == title_text(days as nat, tty),
{
    let mut title = bullet_line(tty, "\x1b[36m", "Stats");
    if days > 0 {
        title.append(colored_value(tty, "\x1b[2m", days_of(days).as_str()).as_str());
    } else {
        title.append("");
    }
    title
}

/// How many requests went well, and their share.
pub open spec fn share_text(ok: nat, count: nat) -> Seq<char> {
    decimal(ok) + " ("@ + percent_text(ok, count) + "%)"@
}

fn share_of(t: &Totals) -> (r: String)
    requires
        t.wf(),
        t.count > 0,
    ensures
        r@ == share_text(t.ok as nat, t.count as nat),
{
    let mut out = decimal_text(t.ok as u128);
    out.append(" (");
    out.append(fmt_percent(t.ok, t.count).as_str());
    out.append("%)");
    out
}

fn mean_of(t: &Totals) -> (r: u64)
    requires
        t.wf(),
        t.count > 0,
    ensures
        r == t.total_ms as nat / t.count as nat,
{
    let mean: u128 = t.total_ms / t.count as u128;
    assert(mean <= u64::MAX) by (nonlinear_arith)
        requires
            mean == t.total_ms / t.count as u128,
            t.total_ms <= t.count * u64::MAX,
            t.count > 0,
    ;
    mean as u64
}

/// The title, and one row for each of the totals.
pub open spec fn stats_lines(t: Totals, days: nat, tty: bool, path: Seq<char>) -> Seq<Seq<char>> {
    seq![
        title_text(days, tty),
        row_text(tty, "总请求"@, in_color(tty, "\x1b[36m"@, decimal(t.count as nat))),
        row_text(
            tty,
            "成功"@,
            in_color(tty, "\x1b[1;32m"@, share_text(t.ok as nat, t.count as nat)),
        ),
        row_text(tty, "非2xx"@, in_color(tty, "\x1b[1;31m"@, decimal(t.err as nat))),
        row_text(
            tty,
            "平均耗时"@,
            in_color(tty, "\x1b[36m"@, time_text(t.total_ms as nat / t.count as nat)),
        ),
        row_text(tty, "最大耗时"@, in_color(tty, "\x1b[36m"@, time_text(t.max_ms as nat))),
        row_text(tty, "数据源"@, in_color(tty, "\x1b[2m"@, path)),
    ]
}

proof fn lemma_labels_fit()
    ensures
        display_width("总请求"@) <= VALUE_COLUMN,
        display_width("成功"@) <= VALUE_COLUMN,
        display_width("非2xx"@) <= VALUE_COLUMN,
        display_width("平均耗时"@) <= VALUE_COLUMN,
        display_width("最大耗时"@) <= VALUE_COLUMN,
        display_width("数据源"@) <= VALUE_COLUMN,
{
    reveal_strlit("总请求");
    reveal_strlit("成功");
    reveal_strlit("非2xx");
    reveal_strlit("平均耗时");
    reveal_strlit("最大耗时");
    reveal_strlit("数据源");
    reveal_with_fuel(display_width, 6);
}

/// Shows the totals. Where there are no requests, see [`no_requests`].
pub fn show_stats(t: &Totals, days: u32, tty: bool, path: &str) -> (r: Vec<String>)
    requires
        t.wf(),
        t.count > 0,
    ensures
        r.deep_view() == stats_lines(*t, days as nat, tty, path@),
        exists|v: Seq<char>| #[trigger]
            is_row(r.deep_view()[4], tty, "平均耗时"@, "\x1b[36m"@, v) && shows_span(
                v,
                (t.total_ms as nat / t.count as nat) * 1_000_000,
            ),
        exists|v: Seq<char>| #[trigger]
            is_row(r.deep_view()[5], tty, "最大耗时"@, "\x1b[36m"@, v) && shows_span(
                v,
                t.max_ms as nat * 1_000_000,
            ),
{
    proof {
        lemma_labels_fit();
        law_rows_show_the_totals(*t, days as nat, tty, path@);
    }
    let count = colored_value(tty, "\x1b[36m", decimal_text(t.count as u128).as_str());
    let ok = colored_value(tty, "\x1b[1;32m", share_of(t).as_str());
    let err = colored_value(tty, "\x1b[1;31m", decimal_text(t.err as u128).as_str());
    let average = colored_value(tty, "\x1b[36m", time_of(mean_of(t)).as_str());
    let longest = colored_value(tty, "\x1b[36m", time_of(t.max_ms).as_str());
    let source = colored_value(tty, "\x1b[2m", path);
    let mut out: Vec<String> = Vec::new();
    out.push(title_of(days, tty));
    out.push(row(tty, "总请求", count.as_str()));
    out.push(row(tty, "成功", ok.as_str()));
    out.push(row(tty, "非2xx", err.as_str()));
    out.push(row(tty, "平均耗时", average.as_str()));
    out.push(row(tty, "最大耗时", longest.as_str()));
    out.push(row(tty, "数据源", source.as_str()));
    assert(out.deep_view() =~= stats_lines(*t, days as nat, tty, path@));
    out
}

// ---------------------------------------------------------------------------
// What the figures mean
// ---------------------------------------------------------------------------

/// One more request adds one to the count and its time to the sum. It is a success exactly where
/// its status has the form 2xx, else a failure. The longest time is that of the longest.
pub proof fn law_request_is_counted_once(t: Totals, status: u64, ms: u64)
    requires
        t.wf(),
        t.count < u64::MAX,
    ensures
        ({
            let u = with_request(t, status, ms);
            &&& u.count == t.count + 1
            &&& u.total_ms == t.total_ms + ms
            &&& status / 100 == 2 ==> u.ok == t.ok + 1 && u.err == t.err
            &&& status / 100 != 2 ==> u.ok == t.ok && u.err == t.err + 1
            &&& u.max_ms >= ms && u.max_ms >= t.max_ms
            &&& u.max_ms == ms || u.max_ms == t.max_ms
        }),
{
    assert(t.count * u64::MAX <= u64::MAX * u64::MAX) by (nonlinear_arith)
        requires
            t.count <= u64::MAX,
    ;
}

/// How many of the requests are counted: those whose time is not known, or not before the first
/// instant that is asked for.
pub open spec fn counted_requests(
    requests: Seq<(Seq<char>, Seq<char>, u64, u16)>,
    since: Option<(i64, u32)>,
) -> Seq<(Seq<char>, Seq<char>, u64, u16)> {
    requests.filter(
        |q: (Seq<char>, Seq<char>, u64, u16)|
            match (instant_in(q.0), since) {
                (Some(at), Some(first)) => at.0 > first.0 || (at.0 == first.0 && at.1 >= first.1),
                _ => true,
            },
    )
}

/// The times of requests, added up.
pub open spec fn sum_of_times(requests: Seq<(Seq<char>, Seq<char>, u64, u16)>) -> nat
    decreases requests.len(),
{
    if requests.len() == 0 {
        0
    } else {
        sum_of_times(requests.drop_last()) + requests.last().2 as nat
    }
}

/// The totals of requests are those of the ones that are counted: their number, how many of them
/// have a status of the form 2xx, the sum of their times, and the longest of them.
pub proof fn law_totals_are_those_of_the_requests(
    requests: Seq<(Seq<char>, Seq<char>, u64, u16)>,
    since: Option<(i64, u32)>,
)
    requires
        requests.len() <= u64::MAX,
    ensures
        ({
            let t = totals_of_requests(requests, since);
            let those = counted_requests(requests, since);
            let good = those.filter(|q: (Seq<char>, Seq<char>, u64, u16)| q.3 / 100 == 2);
            &&& t.wf()
            &&& t.count == those.len()
            &&& t.ok == good.len()
            &&& t.err == those.len() - good.len()
            &&& t.total_ms == sum_of_times(those)
            &&& forall|i: int| 0 <= i < those.len() ==> (#[trigger] those[i]).2 <= t.max_ms
            &&& those.len() > 0 ==> exists|i: int|
                0 <= i < those.len() && (#[trigger] those[i]).2 == t.max_ms
            &&& those.len() == 0 ==> t.max_ms == 0
        }),
    decreases requests.len(),
{
    reveal(Seq::filter);
    let t = totals_of_requests(requests, since);
    let those = counted_requests(requests, since);
    let is_good = |q: (Seq<char>, Seq<char>, u64, u16)| q.3 / 100 == 2;
    let good = those.filter(is_good);
    if requests.len() > 0 {
        let before = requests.drop_last();
        law_totals_are_those_of_the_requests(before, since);
        let u = totals_of_requests(before, since);
        let these = counted_requests(before, since);
        lemma_counted_is_not_longer(before, since);
        let q = requests.last();
        let (ts, id, elapsed_ms, status) = q;
        if too_old(instant_in(ts), since) {
            assert(those == these);
        } else {
            assert(those == these.push(q));
            assert(those.drop_last() =~= these);
            law_request_is_counted_once(u, status as u64, elapsed_ms);
            assert(u.count * u64::MAX + u64::MAX == (u.count + 1) * u64::MAX) by (nonlinear_arith);
            assert(good == if is_good(q) {
                these.filter(is_good).push(q)
            } else {
                these.filter(is_good)
            });
            assert forall|i: int| 0 <= i < those.len() implies (#[trigger] those[i]).2
                <= t.max_ms by {
                if i < these.len() {
                    assert(those[i] == these[i]);
                }
            }
            if t.max_ms == elapsed_ms {
                assert(those[those.len() - 1].2 == t.max_ms);
            } else {
                let i = choose|i: int| 0 <= i < these.len() && (#[trigger] these[i]).2 == u.max_ms;
                assert(those[i] == these[i]);
            }
        }
    } else {
        assert(those =~= Seq::<(Seq<char>, Seq<char>, u64, u16)>::empty());
        assert(good.len() == 0);
    }
}

proof fn lemma_counted_is_not_longer(
    requests: Seq<(Seq<char>, Seq<char>, u64, u16)>,
    since: Option<(i64, u32)>,
)
    ensures
        counted_requests(requests, since).len() <= requests.len(),
    decreases requests.len(),
{
    reveal(Seq::filter);
    if requests.len() > 0 {
        lemma_counted_is_not_longer(requests.drop_last(), since);
    }
}

/// Whether a line is a label and a value: side by side, or on a terminal in their colors.
pub open spec fn is_row(
    line: Seq<char>,
    tty: bool,
    label: Seq<char>,
    color: Seq<char>,
    value: Seq<char>,
) -> bool {
    exists|gap: Seq<char>|
        (forall|i: int| 0 <= i < gap.len() ==> gap[i] == ' ') && line == (if tty {
            "\x1b[2m"@ + label + "\x1b[0m"@ + #[trigger] (gap + color) + value + "\x1b[0m"@
        } else {
            label + (gap + value)
        })
}

proof fn lemma_row(tty: bool, label: Seq<char>, color: Seq<char>, value: Seq<char>)
    ensures
        is_row(row_text(tty, label, in_color(tty, color, value)), tty, label, color, value),
{
    let gap = spaces((VALUE_COLUMN - display_width(label)) as nat);
    let line = row_text(tty, label, in_color(tty, color, value));
    reveal_strlit("");
    assert(gap + color == gap + color);
    if tty {
        assert(line =~= "\x1b[2m"@ + label + "\x1b[0m"@ + (gap + color) + value + "\x1b[0m"@);
    } else {
        assert(line =~= label + (gap + value));
    }
}

/// Whether a text is a share in percent with one digit behind the point: so many of a thousand, up
/// to one.
pub open spec fn shows_share(s: Seq<char>, ok: nat, count: nat) -> bool {
    exists|p: nat| #[trigger]
        shows_tenths(s, p) && p * count <= 1000 * ok + count && 1000 * ok <= p * count + count
}

/// The share of the successes is shown as what it is, to the digit that is shown.
pub proof fn law_share_is_shown(ok: nat, count: nat)
    requires
        0 < count <= u64::MAX,
        ok <= count,
    ensures
        shows_share(percent_text(ok, count), ok, count),
{
    let limit: nat = DOUBLE as nat;
    let one: nat = ONE_PERCENT as nat;
    let a = rounded(ok, limit);
    let b = rounded(a * 100, limit);
    let c = rounded(count, limit);
    let n = b * one;
    let q = percentage(ok, count);
    let p = half_even(q * 10, one);
    law_rounded_is_near(ok, limit);
    law_rounded_is_near(a * 100, limit);
    law_rounded_is_near(count, limit);
    lemma_rounded(count, limit);
    law_half_even_is_near(q * 10, one);
    lemma_tenths(p);
    if ok == 0 {
        assert(half_even(0, 1) == 0);
        assert(a == 0 && b == 0);
        let d = c * spacing(0nat / c, limit);
        assert(0nat / c == 0);
        assert(spacing(0, limit) == 1);
        assert(c * 1 == c);
        assert(half_even(0, c) == 0);
        assert(q == 0);
        assert(half_even(0, one) == 0);
        assert(p == 0);
        assert(p * count == 0) by (nonlinear_arith)
            requires
                p == 0,
        ;
    } else {
        law_rounded_quotient_is_close(n, c, limit);
        let qc = q * count;
        let qr = q * c;
        assert(qr * limit <= qc * limit + qc && qc * limit <= qr * limit + qc) by (nonlinear_arith)
            requires
                qc == q * count,
                qr == q * c,
                c * limit <= count * limit + count,
                count * limit <= c * limit + count,
        ;
        let pc = p * count;
        assert(2 * (pc * one) <= 20 * qc + one * count && 20 * qc <= 2 * (pc * one) + one * count)
            by (nonlinear_arith)
            requires
                pc == p * count,
                qc == q * count,
                2 * (p * one) <= 2 * (q * 10) + one,
                2 * (q * 10) <= 2 * (p * one) + one,
        ;
        assert(pc <= 1000 * ok + count && 1000 * ok <= pc + count);
    }
    assert(shows_tenths(percent_text(ok, count), p));
}

/// A time in milliseconds is shown as what it is, to the digit that is shown.
pub proof fn law_time_is_shown(ms: nat)
    ensures
        shows_span(time_text(ms), ms * 1_000_000),
{
    let s = duration_text(ms * 1_000_000);
    law_span_is_shown(ms * 1_000_000);
    let t = s.skip(1);
    lemma_span_begins_with_a_digit(t, ms * 1_000_000);
    reveal_with_fuel(trim_start_char, 2);
    assert(trim_start_char(s, '+') == t);
}

proof fn lemma_span_begins_with_a_digit(s: Seq<char>, span: nat)
    requires
        shows_span(s, span),
    ensures
        s.len() > 0,
        is_digit(s[0]),
{
    if span < 1_000_000_000 {
        let d = choose|d: Seq<char>|
            all_digits(d) && decimal_value(d) == span / 1_000_000 && s == #[trigger] (d + "ms"@);
        assert(is_digit(d[0]));
        assert(s[0] == d[0]);
    } else {
        let (d, t) = choose|d: Seq<char>, t: nat| #[trigger]
            shows_tenths(d, t) && is_near(t, 100_000_000, span) && s == d + "s"@;
        let w = d.take(d.len() - 2);
        assert(is_digit(w[0]));
        assert(s[0] == w[0]);
    }
}

/// The rows of the average and of the longest time show the times of the totals, to the digit that
/// is shown.
pub proof fn law_rows_show_the_times(t: Totals, days: nat, tty: bool, path: Seq<char>)
    requires
        t.count > 0,
    ensures
        ({
            let rows = stats_lines(t, days, tty, path);
            &&& exists|v: Seq<char>| #[trigger]
                is_row(rows[4], tty, "平均耗时"@, "\x1b[36m"@, v) && shows_span(
                    v,
                    (t.total_ms as nat / t.count as nat) * 1_000_000,
                )
            &&& exists|v: Seq<char>| #[trigger]
                is_row(rows[5], tty, "最大耗时"@, "\x1b[36m"@, v) && shows_span(
                    v,
                    t.max_ms as nat * 1_000_000,
                )
        }),
{
    let rows = stats_lines(t, days, tty, path);
    let mean = time_text(t.total_ms as nat / t.count as nat);
    let longest = time_text(t.max_ms as nat);
    assert(rows[4] == row_text(tty, "平均耗时"@, in_color(tty, "\x1b[36m"@, mean)));
    assert(rows[5] == row_text(tty, "最大耗时"@, in_color(tty, "\x1b[36m"@, longest)));
    law_time_is_shown(t.total_ms as nat / t.count as nat);
    law_time_is_shown(t.max_ms as nat);
    lemma_row(tty, "平均耗时"@, "\x1b[36m"@, mean);
    lemma_row(tty, "最大耗时"@, "\x1b[36m"@, longest);
    assert(is_row(rows[4], tty, "平均耗时"@, "\x1b[36m"@, mean));
    assert(is_row(rows[5], tty, "最大耗时"@, "\x1b[36m"@, longest));
}

/// The figures stand in rows of their own, each behind its label: how many requests there were,
/// how many of them went well and what share that is, how many did not, how long they took on the
/// average, and how long the longest took. Each reads as what it is, to the digit that is shown.
pub proof fn law_rows_show_the_totals(t: Totals, days: nat, tty: bool, path: Seq<char>)
    requires
        t.wf(),
        t.count > 0,
    ensures
        ({
            let rows = stats_lines(t, days, tty, path);
            &&& rows.len() == 7
            &&& exists|v: Seq<char>| #[trigger]
                is_row(rows[1], tty, "总请求"@, "\x1b[36m"@, v) && all_digits(v) && decimal_value(v)
                    == t.count
            &&& exists|v: Seq<char>, w: Seq<char>|
                all_digits(v) && decimal_value(v) == t.ok && shows_share(
                    w,
                    t.ok as nat,
                    t.count as nat,
                ) && #[trigger] is_row(
                    rows[2],
                    tty,
                    "成功"@,
                    "\x1b[1;32m"@,
                    v + " ("@ + w + "%)"@,
                )
            &&& exists|v: Seq<char>| #[trigger]
                is_row(rows[3], tty, "非2xx"@, "\x1b[1;31m"@, v) && all_digits(v)
                    && decimal_value(v) == t.err
            &&& exists|v: Seq<char>| #[trigger]
                is_row(rows[4], tty, "平均耗时"@, "\x1b[36m"@, v) && shows_span(
                    v,
                    (t.total_ms as nat / t.count as nat) * 1_000_000,
                )
            &&& exists|v: Seq<char>| #[trigger]
                is_row(rows[5], tty, "最大耗时"@, "\x1b[36m"@, v) && shows_span(
                    v,
                    t.max_ms as nat * 1_000_000,
                )
            &&& is_row(rows[6], tty, "数据源"@, "\x1b[2m"@, path)
        }),
{
    let rows = stats_lines(t, days, tty, path);
    let count = decimal(t.count as nat);
    let ok = decimal(t.ok as nat);
    let share = percent_text(t.ok as nat, t.count as nat);
    let err = decimal(t.err as nat);
    lemma_decimal_reads_back(t.count as nat);
    lemma_decimal_reads_back(t.ok as nat);
    lemma_decimal_reads_back(t.err as nat);
    law_share_is_shown(t.ok as nat, t.count as nat);
    lemma_row(tty, "总请求"@, "\x1b[36m"@, count);
    lemma_row(tty, "成功"@, "\x1b[1;32m"@, ok + " ("@ + share + "%)"@);
    lemma_row(tty, "非2xx"@, "\x1b[1;31m"@, err);
    lemma_row(tty, "数据源"@, "\x1b[2m"@, path);
    assert(is_row(rows[1], tty, "总请求"@, "\x1b[36m"@, count));
    assert(is_row(rows[2], tty, "成功"@, "\x1b[1;32m"@, ok + " ("@ + share + "%)"@));
    assert(is_row(rows[3], tty, "非2xx"@, "\x1b[1;31m"@, err));
    law_rows_show_the_times(t, days, tty, path);
}

/// What is no JSON is not counted.
pub proof fn law_what_is_no_json_is_not_counted(
    t: Totals,
    line: Seq<char>,
    since: Option<(i64, u32)>,
)
    requires
        json_at(encode_utf8(line), "ts"@, None) is Malformed,
    ensures
        with_line(t, line, since) == t,
{
}

/// The title tells of how many days the requests are, where they are not of all.
pub proof fn law_title_tells_the_days(t: Totals, days: nat, tty: bool, path: Seq<char>)
    ensures
        days == 0 ==> ends_with(stats_lines(t, days, tty, path)[0], "Stats"@),
        days > 0 ==> stands_in(
            "Stats"@ + (if tty {
                "\x1b[2m"@
            } else {
                ""@
            }) + " · 最近 "@ + decimal(days) + " 天"@,
            stats_lines(t, days, tty, path)[0],
        ),
        days > 0 ==> days_text(days) == " · 最近 "@ + decimal(days) + " 天"@,
        days == 0 ==> days_text(days).len() == 0,
{
    reveal_strlit("");
    let title = stats_lines(t, days, tty, path)[0];
    let front = bullet_text(tty, "\x1b[36m"@, "Stats"@);
    let n = front.len() - "Stats"@.len();
    if days == 0 {
        assert(title =~= front);
        assert(title.skip(n) =~= "Stats"@);
    } else {
        let p = "Stats"@ + (if tty {
            "\x1b[2m"@
        } else {
            ""@
        }) + " · 最近 "@ + decimal(days) + " 天"@;
        assert(title.subrange(n, n + p.len()) =~= p);
    }
}

/// A text is as wide as its parts together; a character of the East Asian blocks takes two
/// columns, every other one.
pub proof fn law_width_is_that_of_the_characters(s: Seq<char>, c: char)
    ensures
        display_width(seq![]) == 0,
        c as u32 > 0x2e80 ==> display_width(s.push(c)) == display_width(s) + 2,
        c as u32 <= 0x2e80 ==> display_width(s.push(c)) == display_width(s) + 1,
{
    assert(s.push(c).drop_last() =~= s);
}

/// The values stand in one column, whatever their labels.
pub proof fn law_values_stand_in_one_column(label: Seq<char>, value: Seq<char>)
    requires
        display_width(label) <= 11,
    ensures
        ({
            let gap = 11 - display_width(label);
            let row = row_text(false, label, value);
            &&& row.take(label.len() as int) == label
            &&& forall|i: int|
                label.len() <= i < label.len() + gap ==> #[trigger] row[i] == ' '
            &&& row.skip(label.len() + gap) == value
        }),
{
    reveal_strlit("");
    let gap = 11 - display_width(label);
    let row = row_text(false, label, value);
    assert(row.take(label.len() as int) =~= label);
    assert(row.skip(label.len() + gap) =~= value);
}

} // verus!
