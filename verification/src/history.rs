//! Summaries of past requests, read back from the log file.
//!
//! After a restart the summaries in memory are gone. The lines for the start and for the end of
//! each request are still in the file. Here they are read, paired, and summed up in the same
//! form. Lines that cannot be read are skipped.
use crate::clock::Duration;
use crate::decimal::{decimal, decimal_text, parse_unsigned, parsed};
use crate::format::{fmt_duration, short_upstream, shorten_upstream};
use crate::log_lines::{
    append_piece, around, around_list, decimal_piece, icon, icon_of, is_success, opt_decimal,
    opt_duration, opt_nat, push_piece,
};
use crate::logger::{with_summary, Logger, SUMMARY_CAP};
use crate::table::{at, Table};
use crate::text::{
    char_at_or_end, chars_of, find, find_chars, head_of, join, join_texts, keep_last, last_of,
    lemma_char_at_or_end, lemma_find, lines_of, opt_string, position_or_end, same_text, tail_of,
    text_lines, text_of, trim, trim_text, words, words_of,
};
use crate::utf8::{read_lossy, text_in};
use vstd::prelude::*;

verus! {

// ---------------------------------------------------------------------------
// Models
// ---------------------------------------------------------------------------

/// What stands between the first `mark` and the next one, or the end.
pub open spec fn after_mark(s: Seq<char>, mark: Seq<char>) -> Option<Seq<char>> {
    match find(s, mark) {
        None => None,
        Some(i) => {
            let rest = s.skip(i + mark.len());
            match find(rest, mark) {
                None => Some(rest),
                Some(j) => Some(rest.take(j)),
            }
        },
    }
}

/// The line for the start of a request.
#[verifier::ext_equal]
pub struct StartView {
    pub id: Seq<char>,
    pub clock: Seq<char>,
    pub model: Seq<char>,
    pub url: Seq<char>,
    /// The size of its body, as it is shown.
    pub req: Seq<char>,
}

/// The figures in the line for the end of a request.
#[verifier::ext_equal]
pub struct FieldsView {
    /// How long it took, in seconds, as it is written.
    pub elapsed: Option<Seq<char>>,
    /// How many milliseconds it took to the first byte.
    pub first: Option<nat>,
    pub req: Option<Seq<char>>,
    pub resp: Option<Seq<char>>,
    pub tokens: Option<nat>,
    pub detail: Seq<Seq<char>>,
}

/// The line for the end of a request.
#[verifier::ext_equal]
pub struct FinishView {
    pub id: Seq<char>,
    pub clock: Seq<char>,
    pub status: nat,
    pub fields: FieldsView,
}

/// The model of [`Record`].
pub enum RecordView {
    Start(StartView),
    Finish(FinishView),
}

/// The part of `s` up to the suffix, if it ends with it.
pub open spec fn before_suffix(s: Seq<char>, suffix: Seq<char>) -> Option<Seq<char>> {
    if crate::text::ends_with(s, suffix) {
        Some(s.take(s.len() - suffix.len()))
    } else {
        None
    }
}

/// The number in front of a suffix.
pub open spec fn number_before(s: Seq<char>, suffix: Seq<char>) -> Option<nat> {
    match before_suffix(s, suffix) {
        Some(t) => parsed(t, u64::MAX as nat),
        None => None,
    }
}

/// The second of the words, if there is one.
pub open spec fn second(toks: Seq<Seq<char>>) -> Option<Seq<char>> {
    if toks.len() > 1 {
        Some(toks[1])
    } else {
        None
    }
}

/// The words after the second.
pub open spec fn after_second(toks: Seq<Seq<char>>) -> Seq<Seq<char>> {
    if toks.len() > 2 {
        toks.skip(2)
    } else {
        seq![]
    }
}

/// No figures.
pub open spec fn no_fields() -> FieldsView {
    FieldsView {
        elapsed: None,
        first: None,
        req: None,
        resp: None,
        tokens: None,
        detail: seq![],
    }
}

/// Reads the figures, word by word. The first word that introduces none begins the detail, or
/// is the number of tokens, with the detail behind it.
pub open spec fn read_fields(toks: Seq<Seq<char>>, f: FieldsView) -> FieldsView
    decreases toks.len(),
{
    if toks.len() == 0 {
        f
    } else {
        let t = toks[0];
        let next = second(toks);
        let more = after_second(toks);
        if t == "耗时"@ {
            read_fields(
                more,
                FieldsView {
                    elapsed: match next {
                        Some(v) => before_suffix(v, "s"@),
                        None => None,
                    },
                    ..f
                },
            )
        } else if t == "首包"@ {
            read_fields(
                more,
                FieldsView {
                    first: match next {
                        Some(v) => number_before(v, "ms"@),
                        None => None,
                    },
                    ..f
                },
            )
        } else if t == "req"@ {
            read_fields(more, FieldsView { req: next, ..f })
        } else if t == "resp"@ {
            read_fields(more, FieldsView { resp: next, ..f })
        } else if parsed(t, u64::MAX as nat) is Some && next == Some("tok"@) {
            FieldsView { tokens: parsed(t, u64::MAX as nat), detail: more, ..f }
        } else {
            FieldsView { detail: toks, ..f }
        }
    }
}

/// The id in square brackets at the start of `body`, which ends at position `end`.
pub open spec fn id_before(body: Seq<char>, end: int) -> Option<Seq<char>> {
    if 1 <= end <= body.len() && body[0] == '[' {
        Some(body.subrange(1, end))
    } else {
        None
    }
}

/// Reads what follows the id in the line for the start of a request.
pub open spec fn read_start(id: Seq<char>, clock: Seq<char>, after: Seq<char>) -> Option<
    StartView,
> {
    let i = char_at_or_end(after, ' ');
    if i >= after.len() {
        None
    } else {
        let rest = after.skip(i + 1);
        Some(
            StartView {
                id,
                clock,
                model: after.take(i),
                url: match after_mark(rest, "转发至 "@) {
                    Some(u) => trim(u),
                    None => seq![],
                },
                req: match after_mark(rest, "(req "@) {
                    Some(p) => p.take(char_at_or_end(p, ')')),
                    None => "-"@,
                },
            },
        )
    }
}

/// What follows the first space, if there is one.
pub open spec fn after_space(s: Seq<char>) -> Seq<char> {
    let i = char_at_or_end(s, ' ');
    if i < s.len() {
        s.skip(i + 1)
    } else {
        seq![]
    }
}

/// Reads what follows the id in the line for the end of a request.
pub open spec fn read_finish(id: Seq<char>, clock: Seq<char>, after: Seq<char>) -> Option<
    FinishView,
> {
    match parsed(after.take(char_at_or_end(after, ' ')), u16::MAX as nat) {
        None => None,
        Some(status) => {
            let toks = words(after_space(after));
            Some(FinishView { id, clock, status, fields: read_fields(toks, no_fields()) })
        },
    }
}

/// The second piece of a line between spaces, or nothing.
pub open spec fn second_piece(line: Seq<char>) -> Seq<char> {
    let rest = after_space(line);
    rest.take(char_at_or_end(rest, ' '))
}

/// Reads a line of the log: a stamp, the level in square brackets, and the message.
pub open spec fn read_line(line: Seq<char>) -> Option<RecordView> {
    match find(line, "] "@) {
        None => None,
        Some(i) => {
            let body = line.skip(i + 2);
            let clock = second_piece(line);
            match find(body, "] -> "@) {
                Some(k) => match id_before(body, k) {
                    None => None,
                    Some(id) => match read_start(id, clock, body.skip(k + 5)) {
                        Some(s) => Some(RecordView::Start(s)),
                        None => None,
                    },
                },
                None => match find(body, "] <- "@) {
                    None => None,
                    Some(k) => match id_before(body, k) {
                        None => None,
                        Some(id) => match read_finish(id, clock, body.skip(k + 5)) {
                            Some(f) => Some(RecordView::Finish(f)),
                            None => None,
                        },
                    },
                },
            }
        },
    }
}

/// The records in the lines of a log; lines that cannot be read are skipped.
pub open spec fn read_lines(lines: Seq<Seq<char>>) -> Seq<RecordView>
    decreases lines.len(),
{
    if lines.len() == 0 {
        seq![]
    } else {
        let before = read_lines(lines.drop_last());
        match read_line(lines.last()) {
            Some(r) => before.push(r),
            None => before,
        }
    }
}

/// The records in the bytes of a log.
pub open spec fn records_in(data: Seq<u8>) -> Seq<RecordView> {
    read_lines(text_lines(text_in(data)))
}

/// The size of the body of a request: as it stands in the line for its end, else as in the line
/// for its start. A dash stands for none.
pub open spec fn known_size(finish: Option<Seq<char>>, start: Seq<char>) -> Option<Seq<char>> {
    match finish {
        Some(r) => if r == "-"@ {
            None
        } else {
            Some(r)
        },
        None => if start == "-"@ {
            None
        } else {
            Some(start)
        },
    }
}

/// The words of the detail, if there are any, in one text.
pub open spec fn joined_detail(detail: Seq<Seq<char>>) -> Option<Seq<char>> {
    if detail.len() == 0 {
        None
    } else {
        Some(join(detail, " "@))
    }
}

/// The figures of a summary that was read back.
pub open spec fn history_parts(
    size: Option<Seq<char>>,
    status: nat,
    f: FieldsView,
    elapsed: Option<nat>,
) -> Seq<Seq<char>> {
    around_list("↑ "@, size, ""@) + seq![
        icon(is_success(status)) + " "@ + decimal(status) + around(
            " "@,
            opt_duration(elapsed),
            ""@,
        ),
    ] + around_list("首包 "@, opt_decimal(f.first), "ms"@) + around_list("↓ "@, f.resp, ""@)
        + around_list(""@, opt_decimal(f.tokens), " tok"@)
}

/// The summary of a request from the lines for its end and for its start, if that is known.
pub open spec fn history_line(
    start: Option<StartView>,
    f: FinishView,
    elapsed: Option<nat>,
) -> Seq<char> {
    let (clock, head, req) = match start {
        Some(s) => (s.clock, s.model + " → "@ + short_upstream(s.url), s.req),
        None => (f.clock, "-"@, "-"@),
    };
    clock + " ▶ ["@ + f.id + "] "@ + head + " "@ + join(
        history_parts(known_size(f.fields.req, req), f.status, f.fields, elapsed),
        " · "@,
    ) + around(" "@, joined_detail(f.fields.detail), ""@)
}

/// What the seconds in a record were read as.
pub enum ReadingView {
    /// Nothing: there were none, or they were no number.
    Nothing,
    /// A span of time, in nanoseconds.
    Span(nat),
    /// A number that is no span of time; the record is skipped.
    Unusable,
}

/// The reading for a record; nothing where there is none.
pub open spec fn reading_at(readings: Seq<ReadingView>, i: int) -> ReadingView {
    if 0 <= i < readings.len() {
        readings[i]
    } else {
        ReadingView::Nothing
    }
}

/// The starts that wait for their ends, and the summaries so far.
#[verifier::ext_equal]
pub struct Pairing {
    pub starts: Map<Seq<char>, StartView>,
    pub out: Seq<Seq<char>>,
}

/// Takes in one record.
pub open spec fn pair(p: Pairing, r: RecordView, reading: ReadingView) -> Pairing {
    match r {
        RecordView::Start(s) => Pairing { starts: p.starts.insert(s.id, s), ..p },
        RecordView::Finish(f) => match reading {
            ReadingView::Unusable => p,
            ReadingView::Nothing => Pairing {
                starts: p.starts.remove(f.id),
                out: with_summary(p.out, history_line(at(p.starts, f.id), f, None)),
            },
            ReadingView::Span(d) => Pairing {
                starts: p.starts.remove(f.id),
                out: with_summary(p.out, history_line(at(p.starts, f.id), f, Some(d))),
            },
        },
    }
}

/// Takes in a run of records, of which the first has the given reading.
pub open spec fn pair_all(records: Seq<RecordView>, readings: Seq<ReadingView>) -> Pairing
    decreases records.len(),
{
    if records.len() == 0 {
        Pairing { starts: Map::empty(), out: seq![] }
    } else {
        pair(
            pair_all(records.drop_last(), readings),
            records.last(),
            reading_at(readings, records.len() - 1),
        )
    }
}

// ---------------------------------------------------------------------------
// Records
// ---------------------------------------------------------------------------

/// The line for the start of a request.
pub struct StartRecord {
    pub id: String,
    pub clock: String,
    pub model: String,
    pub url: String,
    pub req: String,
}

/// The figures in the line for the end of a request.
pub struct Fields {
    pub elapsed: Option<String>,
    pub first: Option<u64>,
    pub req: Option<String>,
    pub resp: Option<String>,
    pub tokens: Option<u64>,
    pub detail: Vec<String>,
}

/// The line for the end of a request.
pub struct FinishRecord {
    pub id: String,
    pub clock: String,
    pub status: u16,
    pub fields: Fields,
}

/// A line of the log that tells of a request.
pub enum Record {
    Start(StartRecord),
    Finish(FinishRecord),
}

impl View for StartRecord {
    type V = StartView;

    open spec fn view(&self) -> StartView {
        StartView {
            id: self.id@,
            clock: self.clock@,
            model: self.model@,
            url: self.url@,
            req: self.req@,
        }
    }
}

impl View for Fields {
    type V = FieldsView;

    open spec fn view(&self) -> FieldsView {
        FieldsView {
            elapsed: opt_string(self.elapsed),
            first: opt_nat(self.first),
            req: opt_string(self.req),
            resp: opt_string(self.resp),
            tokens: opt_nat(self.tokens),
            detail: self.detail.deep_view(),
        }
    }
}

impl View for FinishRecord {
    type V = FinishView;

    open spec fn view(&self) -> FinishView {
        FinishView {
            id: self.id@,
            clock: self.clock@,
            status: self.status as nat,
            fields: self.fields@,
        }
    }
}

impl DeepView for Record {
    type V = RecordView;

    open spec fn deep_view(&self) -> RecordView {
        match self {
            Record::Start(s) => RecordView::Start(s@),
            Record::Finish(f) => RecordView::Finish(f@),
        }
    }
}

/// What the seconds in a record were read as.
#[derive(Clone, Copy)]
pub enum Reading {
    /// Nothing: there were none, or they were no number.
    Nothing,
    /// A span of time.
    Span(Duration),
    /// A number that is no span of time, such as a negative one.
    Unusable,
}

impl DeepView for Reading {
    type V = ReadingView;

    open spec fn deep_view(&self) -> ReadingView {
        match self {
            Reading::Nothing => ReadingView::Nothing,
            Reading::Span(d) => ReadingView::Span(d@),
            Reading::Unusable => ReadingView::Unusable,
        }
    }
}

impl Record {
    /// The seconds that the request took, as they are written, to be read as a number.
    pub fn elapsed_text(&self) -> (r: Option<String>)
        ensures
            opt_string(r) == (match self.deep_view() {
                RecordView::Start(_) => None,
                RecordView::Finish(f) => f.fields.elapsed,
            }),
    {
        match self {
            Record::Start(_) => None,
            Record::Finish(f) => match &f.fields.elapsed {
                Some(text) => Some(text.clone()),
                None => None,
            },
        }
    }
}

/// What stands between the first `mark` and the next one, or the end.
fn part_after<'a>(s: &'a [char], mark: &str) -> (r: Option<&'a [char]>)
    ensures
        (match r {
            Some(p) => after_mark(s@, mark@) == Some(p@),
            None => after_mark(s@, mark@) is None,
        }),
{
    let m = chars_of(mark);
    let n = s.len();
    proof {
        lemma_find(s@, mark@);
    }
    match find_chars(s, m.as_slice()) {
        None => None,
        Some(i) => {
            let rest = tail_of(s, i + m.len());
            proof {
                lemma_find(rest@, mark@);
            }
            match find_chars(rest, m.as_slice()) {
                None => Some(rest),
                Some(j) => Some(head_of(rest, j)),
            }
        },
    }
}

/// The part of `s` up to the suffix, if it ends with it.
fn cut_suffix(s: &str, suffix: &str) -> (r: Option<String>)
    ensures
        opt_string(r) == before_suffix(s@, suffix@),
{
    if crate::text::ends_with_text(s, suffix) {
        let cs = chars_of(s);
        let n = suffix.unicode_len();
        Some(text_of(head_of(cs.as_slice(), cs.len() - n)))
    } else {
        None
    }
}

/// Reads a number from a text.
fn number_of(s: &str, max: u64) -> (r: Option<u64>)
    ensures
        opt_nat(r) == parsed(s@, max as nat),
{
    parse_unsigned(chars_of(s).as_slice(), max)
}

/// Reads the figures, word by word.
fn fields_of(toks: &Vec<String>) -> (r: Fields)
    ensures
        r@ == read_fields(toks.deep_view(), no_fields()),
{
    let mut f = Fields {
        elapsed: None,
        first: None,
        req: None,
        resp: None,
        tokens: None,
        detail: Vec::new(),
    };
    let n = toks.len();
    let mut i: usize = 0;
    let ghost all = toks.deep_view();
    proof {
        assert(f.detail.deep_view() =~= Seq::<Seq<char>>::empty());
        assert(f@ == no_fields());
        assert(all.skip(0) =~= all);
    }
    while i < n
        invariant
            i <= n,
            n == toks@.len(),
            all == toks.deep_view(),
            read_fields(all.skip(i as int), f@) == read_fields(all, no_fields()),
        decreases n - i,
    {
        let ghost left = all.skip(i as int);
        let t = toks[i].as_str();
        let has_next = n - i > 1;
        let step: usize = if n - i >= 2 {
            i + 2
        } else {
            n
        };
        proof {
            assert(left[0] == t@);
            assert(left.len() > 1 ==> left[1] == toks@[i + 1]@);
            assert(all.skip(step as int) =~= after_second(left));
        }
        if same_text(t, "耗时") {
            f.elapsed = if has_next {
                cut_suffix(toks[i + 1].as_str(), "s")
            } else {
                None
            };
            i = step;
        } else if same_text(t, "首包") {
            f.first = if has_next {
                match cut_suffix(toks[i + 1].as_str(), "ms") {
                    Some(v) => number_of(v.as_str(), u64::MAX),
                    None => None,
                }
            } else {
                None
            };
            i = step;
        } else if same_text(t, "req") {
            f.req = if has_next {
                Some(toks[i + 1].clone())
            } else {
                None
            };
            i = step;
        } else if same_text(t, "resp") {
            f.resp = if has_next {
                Some(toks[i + 1].clone())
            } else {
                None
            };
            i = step;
        } else {
            let count = number_of(t, u64::MAX);
            if count.is_some() && has_next && same_text(toks[i + 1].as_str(), "tok") {
                f.tokens = count;
                f.detail = keep_last(toks, n - step);
                proof {
                    assert(last_of(all, (n - step) as nat) =~= all.skip(step as int));
                }
                return f;
            }
            f.detail = keep_last(toks, n - i);
            proof {
                assert(last_of(all, (n - i) as nat) =~= left);
            }
            return f;
        }
    }
    assert(all.skip(i as int) =~= Seq::<Seq<char>>::empty());
    f
}

/// What follows the first space, if there is one.
fn rest_after_space<'a>(s: &'a [char]) -> (r: &'a [char])
    ensures
        r@ == after_space(s@),
{
    let i = position_or_end(s, ' ');
    let n = s.len();
    proof {
        lemma_char_at_or_end(s@, ' ');
    }
    if i < n {
        tail_of(s, i + 1)
    } else {
        let r = tail_of(s, n);
        assert(r@ =~= Seq::<char>::empty());
        r
    }
}

/// Reads what follows the id in the line for the start of a request.
fn start_of(id: String, clock: String, after: &[char]) -> (r: Option<StartRecord>)
    ensures
        (match r {
            Some(s) => read_start(id@, clock@, after@) == Some(s@),
            None => read_start(id@, clock@, after@) is None,
        }),
{
    let i = position_or_end(after, ' ');
    proof {
        lemma_char_at_or_end(after@, ' ');
    }
    if i >= after.len() {
        return None;
    }
    let rest = tail_of(after, i + 1);
    let url = match part_after(rest, "转发至 ") {
        Some(u) => trim_text(text_of(u).as_str()),
        None => {
            let none = String::new();
            assert(none@ =~= Seq::<char>::empty());
            none
        },
    };
    let req = match part_after(rest, "(req ") {
        Some(p) => {
            proof {
                lemma_char_at_or_end(p@, ')');
            }
            text_of(head_of(p, position_or_end(p, ')')))
        },
        None => "-".to_owned(),
    };
    Some(StartRecord { id, clock, model: text_of(head_of(after, i)), url, req })
}

/// Reads what follows the id in the line for the end of a request.
fn finish_of(id: String, clock: String, after: &[char]) -> (r: Option<FinishRecord>)
    ensures
        (match r {
            Some(f) => read_finish(id@, clock@, after@) == Some(f@),
            None => read_finish(id@, clock@, after@) is None,
        }),
{
    proof {
        lemma_char_at_or_end(after@, ' ');
    }
    match parse_unsigned(head_of(after, position_or_end(after, ' ')), 65535) {
        None => None,
        Some(status) => {
            let rest = rest_after_space(after);
            let fields = fields_of(&words_of(rest));
            Some(FinishRecord { id, clock, status: status as u16, fields })
        },
    }
}

/// The id in square brackets at the start of `body`, which ends at position `end`.
fn id_of(body: &[char], end: usize) -> (r: Option<String>)
    requires
        end <= body@.len(),
    ensures
        opt_string(r) == id_before(body@, end as int),
{
    if end < 1 || body[0] != '[' {
        None
    } else {
        Some(text_of(vstd::slice::slice_subrange(body, 1, end)))
    }
}

/// Reads a line of the log.
pub fn record_of(line: &str) -> (r: Option<Record>)
    ensures
        (match r {
            Some(x) => read_line(line@) == Some(x.deep_view()),
            None => read_line(line@) is None,
        }),
{
    proof {
        reveal_strlit("] ");
        reveal_strlit("] -> ");
        reveal_strlit("] <- ");
        lemma_find(line@, "] "@);
    }
    let cs = chars_of(line);
    let all = cs.as_slice();
    let n = all.len();
    let i = match find_chars(all, chars_of("] ").as_slice()) {
        Some(i) => i,
        None => {
            return None;
        },
    };
    assert(i + 2 <= n);
    let body = tail_of(all, i + 2);
    let size = body.len();
    let spaced = rest_after_space(all);
    proof {
        lemma_char_at_or_end(spaced@, ' ');
        lemma_find(body@, "] -> "@);
        lemma_find(body@, "] <- "@);
    }
    let clock = text_of(head_of(spaced, position_or_end(spaced, ' ')));
    if let Some(k) = find_chars(body, chars_of("] -> ").as_slice()) {
        assert(k + 5 <= size);
        match id_of(body, k) {
            None => None,
            Some(id) => match start_of(id, clock, tail_of(body, k + 5)) {
                Some(s) => Some(Record::Start(s)),
                None => None,
            },
        }
    } else if let Some(k) = find_chars(body, chars_of("] <- ").as_slice()) {
        assert(k + 5 <= size);
        match id_of(body, k) {
            None => None,
            Some(id) => match finish_of(id, clock, tail_of(body, k + 5)) {
                Some(f) => Some(Record::Finish(f)),
                None => None,
            },
        }
    } else {
        None
    }
}

/// Reads the records of a log.
pub fn read_log(data: &[u8]) -> (r: Vec<Record>)
    ensures
        r.deep_view() == records_in(data@),
{
    let text = read_lossy(data);
    let lines = lines_of(chars_of(text.as_str()).as_slice());
    let ghost all = lines.deep_view();
    let mut out: Vec<Record> = Vec::new();
    assert(out.deep_view() =~= Seq::<RecordView>::empty());
    assert(all.take(0) =~= Seq::<Seq<char>>::empty());
    for i in 0..lines.len()
        invariant
            all == lines.deep_view(),
            out.deep_view() == read_lines(all.take(i as int)),
    {
        let ghost before = out.deep_view();
        proof {
            assert(all.take(i + 1).drop_last() =~= all.take(i as int));
            assert(all.take(i + 1).last() == lines[i as int]@);
        }
        if let Some(x) = record_of(lines[i].as_str()) {
            out.push(x);
            assert(out.deep_view() =~= before.push(x.deep_view()));
        }
    }
    assert(all.take(all.len() as int) =~= all);
    out
}

/// The summary of a request from the lines for its end and for its start.
pub fn history_line_of(
    start: Option<StartRecord>,
    f: &FinishRecord,
    elapsed: Option<Duration>,
) -> (r: String)
    ensures
        r@ == history_line(
            match start {
                Some(s) => Some(s@),
                None => None,
            },
            f@,
            crate::log_lines::opt_span(elapsed),
        ),
{
    let (clock, head, start_req) = match start {
        Some(s) => {
            let mut head = s.model;
            head.append(" → ");
            head.append(shorten_upstream(s.url.as_str()).as_str());
            (s.clock, head, s.req)
        },
        None => (f.clock.clone(), "-".to_owned(), "-".to_owned()),
    };
    let size: Option<String> = match &f.fields.req {
        Some(r) => if same_text(r.as_str(), "-") {
            None
        } else {
            Some(r.clone())
        },
        None => if same_text(start_req.as_str(), "-") {
            None
        } else {
            Some(start_req)
        },
    };
    let ok = 200 <= f.status && f.status < 300;
    let mut ending = icon_of(ok).to_owned();
    ending.append(" ");
    ending.append(decimal_text(f.status as u128).as_str());
    let shown = match elapsed {
        Some(d) => Some(fmt_duration(d)),
        None => None,
    };
    append_piece(&mut ending, " ", shown, "");
    let ghost sized = opt_string(size);
    let mut parts: Vec<String> = Vec::new();
    assert(parts.deep_view() =~= Seq::<Seq<char>>::empty());
    push_piece(&mut parts, "↑ ", size, "");
    let ghost before = parts.deep_view();
    proof {
        let up = around_list("↑ "@, sized, ""@);
        assert(Seq::<Seq<char>>::empty() + up =~= up);
    }
    parts.push(ending);
    assert(parts.deep_view() =~= before + seq![ending@]);
    push_piece(&mut parts, "首包 ", decimal_piece(f.fields.first), "ms");
    let resp: Option<String> = match &f.fields.resp {
        Some(r) => Some(r.clone()),
        None => None,
    };
    push_piece(&mut parts, "↓ ", resp, "");
    push_piece(&mut parts, "", decimal_piece(f.fields.tokens), " tok");
    let mut out = clock;
    out.append(" ▶ [");
    out.append(f.id.as_str());
    out.append("] ");
    out.append(head.as_str());
    out.append(" ");
    out.append(join_texts(&parts, " · ").as_str());
    let detail: Option<String> = if f.fields.detail.len() == 0 {
        None
    } else {
        Some(join_texts(&f.fields.detail, " "))
    };
    append_piece(&mut out, " ", detail, "");
    out
}

impl Logger {
    /// The summaries of the last `n` requests in the bytes of a log file, oldest first. At most
    /// as many as are kept in memory are read back. `readings` holds, for each record of
    /// [`read_log`], what its seconds were read as.
    pub fn file_summary_tail(data: &[u8], readings: &Vec<Reading>, n: usize) -> (r: Vec<String>)
        ensures
            r.deep_view() == last_of(
                pair_all(records_in(data@), readings.deep_view()).out,
                n as nat,
            ),
    {
        let records = read_log(data);
        let ghost all = records.deep_view();
        let ghost read = readings.deep_view();
        let mut starts: Table<StartRecord> = Table::new();
        let mut out: Vec<String> = Vec::new();
        proof {
            assert(all.take(0) =~= Seq::<RecordView>::empty());
            assert(starts@.map_values(|s: StartRecord| s@) =~= Map::empty());
            assert(out.deep_view() =~= Seq::<Seq<char>>::empty());
        }
        let mut left = records;
        let mut i: usize = 0;
        let count = left.len();
        while i < count
            invariant
                i <= count,
                count == all.len(),
                left@.len() == count,
                all == left.deep_view(),
                read == readings.deep_view(),
                starts@.map_values(|s: StartRecord| s@) == pair_all(all.take(i as int), read).starts,
                out.deep_view() == pair_all(all.take(i as int), read).out,
            decreases count - i,
        {
            let ghost before = pair_all(all.take(i as int), read);
            proof {
                assert(all.take(i + 1).drop_last() =~= all.take(i as int));
                assert(all.take(i + 1).last() == left@[i as int].deep_view());
            }
            let reading = if i < readings.len() {
                readings[i]
            } else {
                Reading::Nothing
            };
            assert(reading.deep_view() == reading_at(read, i as int));
            match &left[i] {
                Record::Start(s) => {
                    let copy = StartRecord {
                        id: s.id.clone(),
                        clock: s.clock.clone(),
                        model: s.model.clone(),
                        url: s.url.clone(),
                        req: s.req.clone(),
                    };
                    starts.insert(s.id.as_str(), copy);
                    assert(starts@.map_values(|s: StartRecord| s@) =~= before.starts.insert(
                        s.id@,
                        s@,
                    ));
                },
                Record::Finish(f) => {
                    let elapsed: Option<Option<Duration>> = match reading {
                        Reading::Nothing => Some(None),
                        Reading::Span(d) => Some(Some(d)),
                        Reading::Unusable => None,
                    };
                    if let Some(e) = elapsed {
                        let start = starts.remove(f.id.as_str());
                        assert(starts@.map_values(|s: StartRecord| s@) =~= before.starts.remove(
                            f.id@,
                        ));
                        let line = history_line_of(start, f, e);
                        let ghost lines = out.deep_view();
                        if out.len() >= SUMMARY_CAP {
                            out.remove(0);
                        }
                        out.push(line);
                        assert(out.deep_view() =~= with_summary(lines, line@));
                    }
                },
            }
            i += 1;
        }
        assert(all.take(count as int) =~= all);
        keep_last(&out, n)
    }
}

} // verus!
