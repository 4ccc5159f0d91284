//! What the log file keeps of a request: its lines, read back, give the summary again.
use crate::clock::{clock_text, is_stamp, law_clock_of_stamp, lemma_stamp, seconds, ONE_SECOND};
use crate::decimal::{
    all_digits, decimal, digit, is_digit, lemma_decimal_is_parsed, lemma_decimal_reads_back, parsed,
};
use crate::format::{bytes_text, seconds_text, short_upstream, DOUBLE};
use crate::history::{
    after_mark, after_second, after_space, before_suffix, history_line, history_parts, id_before,
    joined_detail, known_size, no_fields, pair_all, read_fields, read_finish, read_line, read_lines,
    reading_at, records_in, second, second_piece, FieldsView, FinishView, ReadingView, RecordView,
    StartView,
};
use crate::log_lines::{
    around, around_list, finish_text, first_some, icon, is_success, lemma_part_of_part,
    lemma_part_within, lemma_parts_stand_in_joined, opt_bytes, opt_decimal, opt_detail,
    opt_duration, opt_millis, opt_seconds, or_dash, plain_text, start_text, summary_parts,
    summary_text, Outcome,
};
use crate::logger::{begin, finish_run, start_run, LoggerView};
use crate::logger_laws::{
    appended, law_finish_closes_what_start_opened, lemma_finish_appends, lemma_start_appends,
};
use crate::rounding::{half_even, rounded, tenths_text};
use crate::text::{
    center, char_at_or_end, contains, find, find_from, join, lemma_char_at_or_end,
    lemma_char_at_or_end_unique, lemma_find, lemma_trim_start, lemma_word_len,
    lemma_word_len_unique, stands_in, starts_with, text_lines, trim, trim_start, white_space,
    word_len, words,
};
use crate::utf8::one_line;
use vstd::prelude::*;
use vstd::utf8::*;

verus! {

// ---------------------------------------------------------------------------
// Searching
// ---------------------------------------------------------------------------

/// Whether `c` does not occur in `s`.
pub open spec fn lacks(s: Seq<char>, c: char) -> bool {
    forall|i: int| 0 <= i < s.len() ==> #[trigger] s[i] != c
}

proof fn lemma_lacks_concat(a: Seq<char>, b: Seq<char>, c: char)
    requires
        lacks(a, c),
        lacks(b, c),
    ensures
        lacks(a + b, c),
{
    assert forall|i: int| 0 <= i < (a + b).len() implies #[trigger] (a + b)[i] != c by {
        if i < a.len() {
            assert((a + b)[i] == a[i]);
        } else {
            assert((a + b)[i] == b[i - a.len()]);
        }
    }
}

proof fn lemma_find_from_at(a: Seq<char>, pat: Seq<char>, b: Seq<char>, from: int)
    requires
        pat.len() > 0,
        lacks(a, pat[0]),
        0 <= from <= a.len(),
    ensures
        find_from(a + pat + b, pat, from) == Some(a.len() as int),
    decreases a.len() - from,
{
    let s = a + pat + b;
    if from == a.len() {
        assert(s.subrange(from, from + pat.len()) =~= pat);
    } else {
        assert(s.subrange(from, from + pat.len())[0] == a[from]);
        lemma_find_from_at(a, pat, b, from + 1);
    }
}

/// A pattern is found where it stands, if its first character does not occur before.
proof fn lemma_find_at(a: Seq<char>, pat: Seq<char>, b: Seq<char>)
    requires
        pat.len() > 0,
        lacks(a, pat[0]),
    ensures
        find(a + pat + b, pat) == Some(a.len() as int),
{
    lemma_find_from_at(a, pat, b, 0);
}

/// A pattern that begins with a character of its own is found where it stands, if it does not
/// stand before.
proof fn lemma_find_first(a: Seq<char>, pat: Seq<char>, b: Seq<char>)
    requires
        pat.len() > 0,
        forall|k: int| 1 <= k < pat.len() ==> #[trigger] pat[k] != pat[0],
        find(a, pat) is None,
    ensures
        find(a + pat + b, pat) == Some(a.len() as int),
{
    let s = a + pat + b;
    lemma_find(s, pat);
    lemma_find(a, pat);
    let n = a.len() as int;
    assert(s.subrange(n, n + pat.len()) =~= pat);
    if let Some(i) = find(s, pat) {
        if i < a.len() {
            if i + pat.len() <= a.len() {
                assert(a.subrange(i, i + pat.len()) =~= s.subrange(i, i + pat.len()));
            } else {
                let k = a.len() - i;
                assert(s.subrange(i, i + pat.len())[k] == s[a.len() as int]);
                assert(s[a.len() as int] == pat[0]);
                assert(pat[k] != pat[0]);
            }
        }
    }
}

/// Whether a pattern ends with a space, and holds no other.
spec fn ends_with_its_space(pat: Seq<char>) -> bool {
    pat.len() > 0 && pat.last() == ' ' && lacks(pat.drop_last(), ' ')
}

/// A pattern that ends with its only space is not found where two texts meet at a space.
proof fn lemma_not_where_they_meet(a: Seq<char>, b: Seq<char>, pat: Seq<char>)
    requires
        ends_with_its_space(pat),
        a.len() == 0 || a.last() == ' ',
        find(a, pat) is None,
        find(b, pat) is None,
    ensures
        find(a + b, pat) is None,
{
    let s = a + b;
    lemma_find(s, pat);
    lemma_find(a, pat);
    lemma_find(b, pat);
    if let Some(i) = find(s, pat) {
        if i + pat.len() <= a.len() {
            assert(a.subrange(i, i + pat.len()) =~= s.subrange(i, i + pat.len()));
        } else if i >= a.len() {
            let j = i - a.len();
            assert(b.subrange(j, j + pat.len()) =~= s.subrange(i, i + pat.len()));
        } else {
            let k = a.len() - 1 - i;
            assert(s.subrange(i, i + pat.len())[k] == s[a.len() - 1]);
            assert(pat.drop_last()[k] == pat[k]);
        }
    }
}

/// Behind a space, such a pattern is found where it stands, if it does not stand before.
proof fn lemma_find_behind_a_space(a: Seq<char>, pat: Seq<char>, b: Seq<char>)
    requires
        ends_with_its_space(pat),
        a.len() == 0 || a.last() == ' ',
        find(a, pat) is None,
    ensures
        find(a + pat + b, pat) == Some(a.len() as int),
{
    let s = a + pat + b;
    lemma_find(s, pat);
    lemma_find(a, pat);
    let n = a.len() as int;
    assert(s.subrange(n, n + pat.len()) =~= pat);
    if let Some(i) = find(s, pat) {
        if i < a.len() {
            if i + pat.len() <= a.len() {
                assert(a.subrange(i, i + pat.len()) =~= s.subrange(i, i + pat.len()));
            } else {
                let k = a.len() - 1 - i;
                assert(s.subrange(i, i + pat.len())[k] == s[a.len() - 1]);
                assert(pat.drop_last()[k] == pat[k]);
            }
        }
    }
}

/// A pattern with a character that does not occur is not found.
proof fn lemma_find_none(s: Seq<char>, pat: Seq<char>, k: int)
    requires
        0 <= k < pat.len(),
        lacks(s, pat[k]),
    ensures
        find(s, pat) is None,
{
    lemma_find(s, pat);
    if let Some(i) = find(s, pat) {
        assert(s.subrange(i, i + pat.len())[k] == s[i + k]);
    }
}

/// The first `c` of a text.
proof fn lemma_first_char(a: Seq<char>, c: char, b: Seq<char>)
    requires
        lacks(a, c),
    ensures
        char_at_or_end(a + seq![c] + b, c) == a.len(),
{
    let s = a + seq![c] + b;
    assert forall|j: int| 0 <= j < a.len() implies s[j] != c by {
        assert(s[j] == a[j]);
    }
    lemma_char_at_or_end_unique(s, c, a.len() as int);
}

proof fn lemma_no_char(a: Seq<char>, c: char)
    requires
        lacks(a, c),
    ensures
        char_at_or_end(a, c) == a.len(),
{
    lemma_char_at_or_end_unique(a, c, a.len() as int);
}

proof fn lemma_six(
    x: Seq<char>,
    a: Seq<char>,
    b: Seq<char>,
    c: Seq<char>,
    d: Seq<char>,
    e: Seq<char>,
    f: Seq<char>,
)
    ensures
        x + a + b + c + d + e + f == x + (a + (b + (c + (d + (e + f))))),
        a + (b + (c + (d + (e + f)))) == a + b + c + d + (e + f),
{
    assert(x + a + b + c + d + e + f =~= x + (a + (b + (c + (d + (e + f))))));
    assert(a + (b + (c + (d + (e + f)))) =~= a + b + c + d + (e + f));
}

proof fn lemma_marked(
    spaced_mark: Seq<char>,
    mark: Seq<char>,
    x: Seq<char>,
    after: Seq<char>,
    t: Seq<char>,
)
    requires
        spaced_mark == " "@ + mark + " "@,
    ensures
        spaced_mark + x + after + t == " "@ + mark + " "@ + (x + after) + t,
{
    assert(spaced_mark + x + after + t =~= " "@ + mark + " "@ + (x + after) + t);
}

// ---------------------------------------------------------------------------
// Words
// ---------------------------------------------------------------------------

/// Whether a text is one word: not empty, and without white space.
pub open spec fn is_word(s: Seq<char>) -> bool {
    s.len() > 0 && forall|i: int| 0 <= i < s.len() ==> !white_space(#[trigger] s[i])
}

/// The words of a space, a word, and what follows it behind white space.
proof fn lemma_first_word(w: Seq<char>, t: Seq<char>)
    requires
        is_word(w),
        t.len() == 0 || t[0] == ' ',
    ensures
        words(" "@ + w + t) == seq![w] + words(t),
        words(w + t) == seq![w] + words(t),
{
    reveal_strlit(" ");
    let s = " "@ + w + t;
    let u = w + t;
    assert(s.skip(1) =~= u);
    assert(s[0] == ' ');
    assert(u[0] == w[0]);
    assert(trim_start(u) == u);
    assert(trim_start(s) == trim_start(s.skip(1)));
    assert forall|j: int| 0 <= j < w.len() implies !white_space(u[j]) by {
        assert(u[j] == w[j]);
    }
    assert(u.len() > w.len() ==> u[w.len() as int] == t[0]);
    lemma_word_len_unique(u, w.len() as int);
    assert(u.take(w.len() as int) =~= w);
    assert(u.skip(w.len() as int) =~= t);
}

proof fn lemma_no_words()
    ensures
        words(Seq::<char>::empty()) == Seq::<Seq<char>>::empty(),
{
}

// ---------------------------------------------------------------------------
// Figures
// ---------------------------------------------------------------------------

/// Whether `c` can stand in a size or in a number of seconds.
pub open spec fn in_figures(c: char) -> bool {
    is_digit(c) || c == '.' || c == 'B' || c == 'K' || c == 'M'
}

/// Whether a text is made of the characters of figures.
pub open spec fn is_figure(s: Seq<char>) -> bool {
    s.len() > 0 && forall|i: int| 0 <= i < s.len() ==> in_figures(#[trigger] s[i])
}

proof fn lemma_figures_concat(a: Seq<char>, b: Seq<char>)
    requires
        is_figure(a),
        is_figure(b),
    ensures
        is_figure(a + b),
{
    assert forall|i: int| 0 <= i < (a + b).len() implies in_figures(#[trigger] (a + b)[i]) by {
        if i < a.len() {
            assert((a + b)[i] == a[i]);
        } else {
            assert((a + b)[i] == b[i - a.len()]);
        }
    }
}

proof fn lemma_figure(s: Seq<char>)
    requires
        is_figure(s),
    ensures
        is_word(s),
        s != "-"@,
        forall|c: char| !in_figures(c) ==> #[trigger] lacks(s, c),
{
    reveal_strlit("-");
    assert(in_figures(s[0]));
    assert forall|i: int| 0 <= i < s.len() implies !white_space(#[trigger] s[i]) by {
        assert(in_figures(s[i]));
    }
}

proof fn lemma_decimal_figure(n: nat)
    ensures
        is_figure(decimal(n)),
        all_digits(decimal(n)),
{
    lemma_decimal_reads_back(n);
}

proof fn lemma_tenths_figure(t: nat)
    ensures
        is_figure(tenths_text(t)),
{
    reveal_strlit(".");
    lemma_decimal_figure(t / 10);
    lemma_figures_concat(decimal(t / 10), "."@);
    lemma_figures_concat(decimal(t / 10) + "."@, seq![digit(t % 10)]);
}

proof fn lemma_seconds_figure(d: nat)
    ensures
        is_figure(seconds_text(d)),
{
    reveal_strlit(".");
    let t = half_even(seconds(d) * 100, ONE_SECOND as nat);
    lemma_decimal_figure(t / 100);
    lemma_figures_concat(decimal(t / 100), "."@);
    lemma_figures_concat(
        decimal(t / 100) + "."@,
        seq![digit((t / 10) % 10), digit(t % 10)],
    );
}

proof fn lemma_bytes_figure(b: nat)
    ensures
        is_figure(bytes_text(b)),
{
    reveal_strlit("B");
    reveal_strlit("KB");
    reveal_strlit("MB");
    lemma_decimal_figure(b);
    lemma_figures_concat(decimal(b), "B"@);
    let kb = half_even(b * 10, 1024);
    lemma_tenths_figure(kb);
    lemma_figures_concat(tenths_text(kb), "KB"@);
    let mb = half_even(rounded(b, DOUBLE as nat) * 10, 1024 * 1024);
    lemma_tenths_figure(mb);
    lemma_figures_concat(tenths_text(mb), "MB"@);
}

// ---------------------------------------------------------------------------
// The front of a line
// ---------------------------------------------------------------------------

/// The level and the message of a line are found behind its stamp.
proof fn lemma_front(stamp: Seq<char>, msg: Seq<char>)
    requires
        is_stamp(stamp),
    ensures
        ({
            let line = plain_text(stamp, "INFO"@, msg);
            &&& find(line, "] "@) == Some(stamp.len() as int + 7)
            &&& line.skip(stamp.len() as int + 9) == msg
            &&& second_piece(line) == clock_text(stamp)
        }),
{
    let line = plain_text(stamp, "INFO"@, msg);
    reveal_strlit("INFO");
    reveal_strlit(" [");
    reveal_strlit("] ");
    let level = center("INFO"@, 5);
    assert(level =~= seq!['I', 'N', 'F', 'O', ' ']);
    let front = stamp + " ["@ + level;
    law_clock_of_stamp(stamp);
    lemma_stamp(stamp);
    let at_space = stamp.len() - 13;
    assert forall|i: int| 0 <= i < stamp.len() implies #[trigger] stamp[i] != ']' by {
        if i > at_space {
            assert(stamp.skip(stamp.len() - 12)[i - (stamp.len() - 12)] == stamp[i]);
        }
    }
    lemma_lacks_concat(stamp, " ["@, ']');
    lemma_lacks_concat(stamp + " ["@, level, ']');
    lemma_find_at(front, "] "@, msg);
    assert(front + "] "@ + msg =~= line);
    assert(line.skip(stamp.len() as int + 9) =~= msg);
    // The clock stands between the first two spaces.
    assert forall|i: int| 0 <= i < at_space implies line[i] != ' ' by {
        assert(line[i] == stamp[i]);
    }
    assert(line[at_space] == stamp[at_space]);
    lemma_char_at_or_end_unique(line, ' ', at_space);
    let rest = after_space(line);
    let clock = clock_text(stamp);
    assert(rest =~= line.skip(at_space + 1));
    assert forall|i: int| 0 <= i < 12 implies rest[i] != ' ' by {
        assert(rest[i] == clock[i]);
    }
    assert(rest[12] == ' ');
    lemma_char_at_or_end_unique(rest, ' ', 12);
    assert(rest.take(12) =~= clock);
}

/// Whether a text can be the id of a request in the log: on one line, and without the marks that
/// follow an id.
pub open spec fn plain_id(id: Seq<char>) -> bool {
    one_line(id) && !contains(id, "] -> "@) && !contains(id, "] <- "@)
}

/// Whether a text can stand in the line for the start of a request, as the method or the path: on
/// one line, and not together with the space behind it one of the marks that follow.
pub open spec fn plain_target(s: Seq<char>) -> bool {
    one_line(s) && !contains(s + " "@, "(req "@) && !contains(s + " "@, "转发至 "@)
}

/// Whether a text can be the address in the line for the start of a request: on one line, without
/// its mark, and without white space at either end.
pub open spec fn plain_address(s: Seq<char>) -> bool {
    one_line(s) && !contains(s, "转发至 "@) && (s.len() > 0 ==> !white_space(s[0]) && !white_space(
        s.last(),
    ))
}

proof fn lemma_behind_bracket(id: Seq<char>, pat: Seq<char>)
    requires
        pat.len() > 0,
        pat[0] == ']',
        find(id, pat) is None,
    ensures
        find("["@ + id, pat) is None,
{
    reveal_strlit("[");
    let front = "["@ + id;
    lemma_find(front, pat);
    lemma_find(id, pat);
    if let Some(i) = find(front, pat) {
        assert(front.subrange(i, i + pat.len())[0] == front[i]);
        assert(id.subrange(i - 1, i - 1 + pat.len()) =~= front.subrange(i, i + pat.len()));
    }
}

/// The line for the start of a request is read as it was written.
pub proof fn law_start_line_reads_back(
    stamp: Seq<char>,
    id: Seq<char>,
    model: Option<Seq<char>>,
    method: Seq<char>,
    path: Seq<char>,
    upstream: Seq<char>,
    req_bytes: nat,
)
    requires
        is_stamp(stamp),
        plain_id(id),
        lacks(or_dash(model), ' '),
        plain_target(method),
        plain_target(path),
        plain_address(upstream),
    ensures
        read_line(
            plain_text(stamp, "INFO"@, start_text(id, model, method, path, upstream, req_bytes)),
        ) == Some(
            RecordView::Start(
                StartView {
                    id,
                    clock: clock_text(stamp),
                    model: or_dash(model),
                    url: upstream,
                    req: bytes_text(req_bytes),
                },
            ),
        ),
{
    let body = start_text(id, model, method, path, upstream, req_bytes);
    lemma_front(stamp, body);
    let shown = or_dash(model);
    let front = "["@ + id;
    let rest = start_rest(method, path, bytes_text(req_bytes), upstream);
    let after = shown + " "@ + rest;
    assert(body =~= front + "] -> "@ + after) by {
        lemma_start_text_parts(id, model, method, path, upstream, req_bytes);
    }
    reveal_strlit("] -> ");
    lemma_behind_bracket(id, "] -> "@);
    lemma_find_first(front, "] -> "@, after);
    assert(body.skip(front.len() as int + 5) =~= after);
    assert(id_before(body, front.len() as int) == Some(id)) by {
        reveal_strlit("[");
        assert(body[0] == front[0]);
        assert(body.subrange(1, front.len() as int) =~= id);
    }
    lemma_model(shown, rest);
    lemma_bytes_figure(req_bytes);
    lemma_size(method, path, bytes_text(req_bytes), upstream);
    lemma_address(method, path, bytes_text(req_bytes), upstream);
}

/// What follows the model in the line for the start of a request.
spec fn start_rest(
    method: Seq<char>,
    path: Seq<char>,
    size: Seq<char>,
    upstream: Seq<char>,
) -> Seq<char> {
    method + " "@ + path + " (req "@ + size + ") 转发至 "@ + upstream
}

proof fn lemma_start_text_parts(
    id: Seq<char>,
    model: Option<Seq<char>>,
    method: Seq<char>,
    path: Seq<char>,
    upstream: Seq<char>,
    req_bytes: nat,
)
    ensures
        start_text(id, model, method, path, upstream, req_bytes) == "["@ + id + "] -> "@ + (or_dash(
            model,
        ) + " "@ + start_rest(method, path, bytes_text(req_bytes), upstream)),
{
    assert(start_text(id, model, method, path, upstream, req_bytes) =~= "["@ + id + "] -> "@ + (
    or_dash(model) + " "@ + start_rest(method, path, bytes_text(req_bytes), upstream)));
}

/// The model ends at the first space.
proof fn lemma_model(shown: Seq<char>, rest: Seq<char>)
    requires
        lacks(shown, ' '),
    ensures
        ({
            let after = shown + " "@ + rest;
            &&& char_at_or_end(after, ' ') == shown.len()
            &&& after.take(shown.len() as int) == shown
            &&& after.skip(shown.len() as int + 1) == rest
        }),
{
    reveal_strlit(" ");
    let after = shown + " "@ + rest;
    assert(after =~= shown + seq![' '] + rest);
    lemma_first_char(shown, ' ', rest);
    assert(after.take(shown.len() as int) =~= shown);
    assert(after.skip(shown.len() as int + 1) =~= rest);
}

/// The size stands between its mark and the next bracket.
proof fn lemma_size(method: Seq<char>, path: Seq<char>, size: Seq<char>, upstream: Seq<char>)
    requires
        plain_target(method),
        plain_target(path),
        is_figure(size),
    ensures
        after_mark(start_rest(method, path, size, upstream), "(req "@) matches Some(p) && p.take(
            char_at_or_end(p, ')'),
        ) == size,
{
    reveal_strlit(" ");
    reveal_strlit(" (req ");
    reveal_strlit("(req ");
    reveal_strlit(") 转发至 ");
    let rest = start_rest(method, path, size, upstream);
    lemma_figure(size);
    let m = method + " "@;
    let t = path + " "@;
    let a = m + t;
    lemma_not_where_they_meet(m, t, "(req "@);
    let tail = size + ") 转发至 "@ + upstream;
    assert(rest =~= a + "(req "@ + tail);
    lemma_find_behind_a_space(a, "(req "@, tail);
    assert(rest.skip(a.len() as int + 5) =~= tail);
    assert(tail.take(size.len() as int) =~= size);
    lemma_next_mark(size, tail);
    let piece = after_mark(rest, "(req "@)->0;
    let more = piece.skip(size.len() as int + 1);
    assert(piece =~= size + seq![')'] + more);
    lemma_first_char(size, ')', more);
    assert(piece.take(size.len() as int) =~= size);
}

/// The next mark, if there is one, comes after the bracket behind the size.
proof fn lemma_next_mark(size: Seq<char>, tail: Seq<char>)
    requires
        is_figure(size),
        tail.len() > size.len(),
        tail.take(size.len() as int) == size,
        tail[size.len() as int] == ')',
    ensures
        find(tail, "(req "@) matches Some(j) ==> size.len() < j <= tail.len(),
{
    reveal_strlit("(req ");
    lemma_find(tail, "(req "@);
    if let Some(j) = find(tail, "(req "@) {
        assert(tail.subrange(j, j + 5)[0] == tail[j]);
        if j < size.len() {
            assert(tail[j] == size[j]);
            assert(in_figures(size[j]));
        }
    }
}

/// The address stands behind its mark.
proof fn lemma_address(method: Seq<char>, path: Seq<char>, size: Seq<char>, upstream: Seq<char>)
    requires
        plain_target(method),
        plain_target(path),
        is_figure(size),
        plain_address(upstream),
    ensures
        after_mark(start_rest(method, path, size, upstream), "转发至 "@) == Some(upstream),
        trim(upstream) == upstream,
{
    reveal_strlit(" ");
    reveal_strlit(" (req ");
    reveal_strlit(") ");
    reveal_strlit(") 转发至 ");
    reveal_strlit("转发至 ");
    let rest = start_rest(method, path, size, upstream);
    lemma_figure(size);
    reveal_strlit("(req ");
    let m = method + " "@;
    let t = path + " "@;
    let q = "(req "@ + size + ") "@;
    lemma_lacks_concat("(req "@, size, '转');
    lemma_lacks_concat("(req "@ + size, ") "@, '转');
    lemma_find_none(q, "转发至 "@, 0);
    lemma_not_where_they_meet(m, t, "转发至 "@);
    lemma_not_where_they_meet(m + t, q, "转发至 "@);
    let b = m + t + q;
    assert(rest =~= b + "转发至 "@ + upstream);
    lemma_find_behind_a_space(b, "转发至 "@, upstream);
    assert(rest.skip(b.len() as int + 4) =~= upstream);
}

// ---------------------------------------------------------------------------
// The end of a request
// ---------------------------------------------------------------------------

/// Whether the detail of a request can be told from the rest of the line for its end. Its words
/// are one space apart, and it does not hold the mark of a start. Where no number of tokens comes
/// before it, it does not begin as a figure does.
#[verifier::opaque]
pub open spec fn plain_detail(o: Outcome) -> bool {
    let w = words(o.detail);
    &&& o.detail == join(w, " "@)
    &&& !contains(o.detail, "] -> "@)
    &&& o.detail.len() > 0 && o.tokens is None ==> {
        &&& w[0] != "耗时"@ && w[0] != "首包"@ && w[0] != "req"@ && w[0] != "resp"@
        &&& !(parsed(w[0], u64::MAX as nat) is Some && second(w) == Some("tok"@))
    }
}

/// Whether the figures of a request fit into what the line for its end is read into.
pub open spec fn fits(o: Outcome) -> bool {
    &&& o.status <= u16::MAX
    &&& o.first_byte matches Some(d) ==> d / 1_000_000 <= u64::MAX
    &&& o.tokens matches Some(t) ==> t <= u64::MAX
}

/// The pieces of the line for the end of a request, from the last to the first.
pub open spec fn tail_detail(o: Outcome) -> Seq<char> {
    around(" "@, opt_detail(o.detail), ""@)
}

pub open spec fn tail_tokens(o: Outcome) -> Seq<char> {
    around(" "@, opt_decimal(o.tokens), " tok"@) + tail_detail(o)
}

pub open spec fn tail_bytes(o: Outcome) -> Seq<char> {
    around(" resp "@, opt_bytes(o.bytes), ""@) + tail_tokens(o)
}

pub open spec fn tail_req(o: Outcome) -> Seq<char> {
    around(" req "@, opt_bytes(o.req_bytes), ""@) + tail_bytes(o)
}

pub open spec fn tail_first(o: Outcome) -> Seq<char> {
    around(" 首包 "@, opt_millis(o.first_byte), "ms"@) + tail_req(o)
}

pub open spec fn tail_elapsed(o: Outcome) -> Seq<char> {
    around(" 耗时 "@, opt_seconds(o.elapsed), "s"@) + tail_first(o)
}

/// Whether a text is empty or begins with a space.
pub open spec fn spaced(s: Seq<char>) -> bool {
    s.len() == 0 || s[0] == ' '
}

proof fn lemma_tails_are_spaced(o: Outcome)
    ensures
        spaced(tail_detail(o)),
        spaced(tail_tokens(o)),
        spaced(tail_bytes(o)),
        spaced(tail_req(o)),
        spaced(tail_first(o)),
        spaced(tail_elapsed(o)),
{
    reveal_strlit(" ");
    reveal_strlit(" resp ");
    reveal_strlit(" req ");
    reveal_strlit(" 首包 ");
    reveal_strlit(" 耗时 ");
    assert(tail_tokens(o).len() > 0 ==> tail_tokens(o)[0] == ' ');
    assert(tail_bytes(o).len() > 0 ==> tail_bytes(o)[0] == ' ');
    assert(tail_req(o).len() > 0 ==> tail_req(o)[0] == ' ');
    assert(tail_first(o).len() > 0 ==> tail_first(o)[0] == ' ');
    assert(tail_elapsed(o).len() > 0 ==> tail_elapsed(o)[0] == ' ');
}

/// The words of a mark and a figure.
proof fn lemma_two_words(mark: Seq<char>, w: Seq<char>, t: Seq<char>)
    requires
        is_word(mark),
        is_word(w),
        spaced(t),
    ensures
        words(" "@ + mark + " "@ + w + t) == seq![mark, w] + words(t),
{
    reveal_strlit(" ");
    let rest = " "@ + w + t;
    lemma_first_word(w, t);
    lemma_first_word(mark, rest);
    assert(" "@ + mark + rest =~= " "@ + mark + " "@ + w + t);
    assert(seq![mark] + (seq![w] + words(t)) =~= seq![mark, w] + words(t));
}

/// Two words in front of others are the first two.
proof fn lemma_two_in_front(a: Seq<char>, b: Seq<char>, more: Seq<Seq<char>>)
    ensures
        ({
            let toks = seq![a, b] + more;
            &&& toks.len() > 0
            &&& toks[0] == a
            &&& second(toks) == Some(b)
            &&& after_second(toks) == more
        }),
{
    let toks = seq![a, b] + more;
    assert(after_second(toks) =~= more);
}

proof fn lemma_suffix(x: Seq<char>, suffix: Seq<char>)
    ensures
        before_suffix(x + suffix, suffix) == Some(x),
{
    let s = x + suffix;
    assert(s.skip(s.len() - suffix.len()) =~= suffix);
    assert(s.take(s.len() - suffix.len()) =~= x);
}

proof fn lemma_words(s: Seq<char>)
    ensures
        forall|i: int| 0 <= i < words(s).len() ==> is_word(#[trigger] words(s)[i]),
    decreases s.len(),
{
    let t = trim_start(s);
    lemma_trim_start(s);
    if t.len() > 0 {
        let n = word_len(t);
        lemma_word_len(t);
        lemma_words(t.skip(n));
        assert forall|i: int| 0 <= i < words(s).len() implies is_word(#[trigger] words(s)[i]) by {
            if i > 0 {
                assert(words(s)[i] == words(t.skip(n))[i - 1]);
            }
        }
    }
}

/// Words one space apart hold no white space but the spaces.
proof fn lemma_joined_words(w: Seq<Seq<char>>)
    requires
        forall|i: int| 0 <= i < w.len() ==> is_word(#[trigger] w[i]),
    ensures
        forall|i: int|
            0 <= i < join(w, " "@).len() ==> !white_space(#[trigger] join(w, " "@)[i]) || join(
                w,
                " "@,
            )[i] == ' ',
    decreases w.len(),
{
    reveal_strlit(" ");
    let s = join(w, " "@);
    if w.len() == 1 {
        assert(is_word(w[0]));
    } else if w.len() > 1 {
        let front = join(w.drop_last(), " "@);
        assert forall|i: int| 0 <= i < w.drop_last().len() implies is_word(
            #[trigger] w.drop_last()[i],
        ) by {
            assert(w.drop_last()[i] == w[i]);
        }
        lemma_joined_words(w.drop_last());
        assert(is_word(w[w.len() - 1]));
        assert forall|i: int| 0 <= i < s.len() implies !white_space(#[trigger] s[i]) || s[i]
            == ' ' by {
            if i < front.len() {
                assert(s[i] == front[i]);
            } else if i > front.len() {
                assert(s[i] == w.last()[i - front.len() - 1]);
            }
        }
    }
}

/// The words of the detail are the same behind a space.
proof fn lemma_words_of_detail(o: Outcome)
    requires
        plain_detail(o),
    ensures
        words(tail_detail(o)) == words(o.detail),
        o.detail.len() > 0 ==> words(o.detail).len() > 0,
{
    reveal(plain_detail);
    reveal_strlit(" ");
    reveal_strlit("");
    lemma_no_words();
    let d = o.detail;
    if d.len() > 0 {
        let t = tail_detail(o);
        assert(t.skip(1) =~= d);
        assert(trim_start(t) == trim_start(t.skip(1)));
    } else {
        assert(d =~= Seq::<char>::empty());
        assert(tail_detail(o) =~= d);
    }
}

/// Reading the number of tokens and the detail.
proof fn lemma_read_tokens(o: Outcome, f: FieldsView)
    requires
        fits(o),
        plain_detail(o),
        f.tokens is None,
        f.detail.len() == 0,
    ensures
        read_fields(words(tail_tokens(o)), f) == (FieldsView {
            tokens: o.tokens,
            detail: words(o.detail),
            ..f
        }),
{
    reveal(plain_detail);
    reveal_strlit(" ");
    reveal_strlit("");
    reveal_strlit(" tok");
    reveal_strlit("tok");
    reveal_strlit("耗时");
    reveal_strlit("首包");
    reveal_strlit("req");
    reveal_strlit("resp");
    lemma_words_of_detail(o);
    lemma_tails_are_spaced(o);
    match o.tokens {
        Some(t) => {
            let n = decimal(t);
            lemma_decimal_figure(t);
            lemma_figure(n);
            assert(is_digit(n[0]));
            lemma_decimal_is_parsed(t, u64::MAX as nat);
            assert(tail_tokens(o) =~= " "@ + n + " "@ + "tok"@ + tail_detail(o));
            lemma_two_words(n, "tok"@, tail_detail(o));
            lemma_two_in_front(n, "tok"@, words(tail_detail(o)));
        },
        None => {
            assert(tail_tokens(o) =~= tail_detail(o));
            if o.detail.len() == 0 {
                lemma_no_words();
                assert(o.detail =~= Seq::<char>::empty());
                assert(f.detail =~= Seq::<Seq<char>>::empty());
            }
        },
    }
}

proof fn lemma_figures_of(o: Outcome)
    ensures
        opt_seconds(o.elapsed) matches Some(p) ==> is_figure(p),
        opt_millis(o.first_byte) matches Some(p) ==> is_figure(p),
        opt_bytes(o.req_bytes) matches Some(p) ==> is_figure(p),
        opt_bytes(o.bytes) matches Some(p) ==> is_figure(p),
        opt_decimal(o.tokens) matches Some(p) ==> is_figure(p),
{
    if let Some(d) = o.elapsed {
        lemma_seconds_figure(d);
    }
    if let Some(d) = o.first_byte {
        lemma_decimal_figure(d / 1_000_000);
    }
    if let Some(b) = o.req_bytes {
        lemma_bytes_figure(b);
    }
    if let Some(b) = o.bytes {
        lemma_bytes_figure(b);
    }
    if let Some(t) = o.tokens {
        lemma_decimal_figure(t);
    }
}

/// What stands before the number of tokens.
pub open spec fn front_of_tokens(o: Outcome) -> Seq<char> {
    around(" 耗时 "@, opt_seconds(o.elapsed), "s"@) + around(
        " 首包 "@,
        opt_millis(o.first_byte),
        "ms"@,
    ) + around(" req "@, opt_bytes(o.req_bytes), ""@) + around(
        " resp "@,
        opt_bytes(o.bytes),
        ""@,
    )
}

proof fn lemma_front_of_tokens(o: Outcome)
    ensures
        tail_elapsed(o) == front_of_tokens(o) + tail_tokens(o),
{
    lemma_six(
        Seq::<char>::empty(),
        around(" 耗时 "@, opt_seconds(o.elapsed), "s"@),
        around(" 首包 "@, opt_millis(o.first_byte), "ms"@),
        around(" req "@, opt_bytes(o.req_bytes), ""@),
        around(" resp "@, opt_bytes(o.bytes), ""@),
        around(" "@, opt_decimal(o.tokens), " tok"@),
        tail_detail(o),
    );
}

/// The figures as they are read.
pub open spec fn fields_of_outcome(o: Outcome) -> FieldsView {
    FieldsView {
        elapsed: opt_seconds(o.elapsed),
        first: match o.first_byte {
            Some(d) => Some(d / 1_000_000),
            None => None,
        },
        req: opt_bytes(o.req_bytes),
        resp: opt_bytes(o.bytes),
        tokens: o.tokens,
        detail: words(o.detail),
    }
}

/// Reading one mark and its figure, where they are there.
proof fn lemma_read_elapsed(o: Outcome)
    ensures
        read_fields(words(tail_elapsed(o)), no_fields()) == read_fields(
            words(tail_first(o)),
            (FieldsView { elapsed: opt_seconds(o.elapsed), ..no_fields() }),
        ),
{
    reveal_strlit(" ");
    reveal_strlit(" 耗时 ");
    reveal_strlit("耗时");
    reveal_strlit("s");
    lemma_figures_of(o);
    lemma_tails_are_spaced(o);
    match opt_seconds(o.elapsed) {
        Some(x) => {
            let w = x + "s"@;
            assert(is_word(w)) by {
                lemma_figure(x);
                assert forall|i: int| 0 <= i < w.len() implies !white_space(#[trigger] w[i]) by {
                    if i < x.len() {
                        assert(w[i] == x[i]);
                    }
                }
            }
            assert(" 耗时 "@ =~= " "@ + "耗时"@ + " "@);
            lemma_marked(" 耗时 "@, "耗时"@, x, "s"@, tail_first(o));
            lemma_two_words("耗时"@, w, tail_first(o));
            lemma_two_in_front("耗时"@, w, words(tail_first(o)));
            lemma_suffix(x, "s"@);
        },
        None => {
            assert(tail_elapsed(o) =~= tail_first(o));
        },
    }
}

proof fn lemma_read_first(o: Outcome, f: FieldsView)
    requires
        fits(o),
        f.first is None,
    ensures
        read_fields(words(tail_first(o)), f) == read_fields(
            words(tail_req(o)),
            (FieldsView { first: fields_of_outcome(o).first, ..f }),
        ),
{
    reveal_strlit(" ");
    reveal_strlit(" 首包 ");
    reveal_strlit("首包");
    reveal_strlit("耗时");
    reveal_strlit("ms");
    lemma_figures_of(o);
    lemma_tails_are_spaced(o);
    match o.first_byte {
        Some(d) => {
            let n = d / 1_000_000;
            let x = decimal(n);
            let w = x + "ms"@;
            assert(is_word(w)) by {
                lemma_figure(x);
                assert forall|i: int| 0 <= i < w.len() implies !white_space(#[trigger] w[i]) by {
                    if i < x.len() {
                        assert(w[i] == x[i]);
                    }
                }
            }
            assert(" 首包 "@ =~= " "@ + "首包"@ + " "@);
            lemma_marked(" 首包 "@, "首包"@, x, "ms"@, tail_req(o));
            lemma_two_words("首包"@, w, tail_req(o));
            lemma_two_in_front("首包"@, w, words(tail_req(o)));
            lemma_suffix(x, "ms"@);
            lemma_decimal_is_parsed(n, u64::MAX as nat);
            assert("首包"@[0] != "耗时"@[0]);
        },
        None => {
            assert(tail_first(o) =~= tail_req(o));
        },
    }
}

proof fn lemma_read_req(o: Outcome, f: FieldsView)
    requires
        f.req is None,
    ensures
        read_fields(words(tail_req(o)), f) == read_fields(
            words(tail_bytes(o)),
            (FieldsView { req: opt_bytes(o.req_bytes), ..f }),
        ),
{
    reveal_strlit(" ");
    reveal_strlit(" req ");
    reveal_strlit("req");
    reveal_strlit("首包");
    reveal_strlit("耗时");
    reveal_strlit("");
    lemma_figures_of(o);
    lemma_tails_are_spaced(o);
    match opt_bytes(o.req_bytes) {
        Some(w) => {
            lemma_figure(w);
            assert(" req "@ =~= " "@ + "req"@ + " "@);
            assert(w + ""@ =~= w);
            lemma_marked(" req "@, "req"@, w, ""@, tail_bytes(o));
            lemma_two_words("req"@, w, tail_bytes(o));
            lemma_two_in_front("req"@, w, words(tail_bytes(o)));
            assert("req"@[0] != "耗时"@[0]);
            assert("req"@[0] != "首包"@[0]);
        },
        None => {
            assert(tail_req(o) =~= tail_bytes(o));
        },
    }
}

proof fn lemma_read_bytes(o: Outcome, f: FieldsView)
    requires
        f.resp is None,
    ensures
        read_fields(words(tail_bytes(o)), f) == read_fields(
            words(tail_tokens(o)),
            (FieldsView { resp: opt_bytes(o.bytes), ..f }),
        ),
{
    reveal_strlit(" ");
    reveal_strlit(" resp ");
    reveal_strlit("resp");
    reveal_strlit("req");
    reveal_strlit("首包");
    reveal_strlit("耗时");
    reveal_strlit("");
    lemma_figures_of(o);
    lemma_tails_are_spaced(o);
    match opt_bytes(o.bytes) {
        Some(w) => {
            lemma_figure(w);
            assert(" resp "@ =~= " "@ + "resp"@ + " "@);
            assert(w + ""@ =~= w);
            lemma_marked(" resp "@, "resp"@, w, ""@, tail_tokens(o));
            lemma_two_words("resp"@, w, tail_tokens(o));
            lemma_two_in_front("resp"@, w, words(tail_tokens(o)));
            assert("resp"@[0] != "耗时"@[0]);
            assert("resp"@[0] != "首包"@[0]);
            assert("resp"@.len() != "req"@.len());
        },
        None => {
            assert(tail_bytes(o) =~= tail_tokens(o));
        },
    }
}

/// The figures of a request are read as they were written.
proof fn lemma_fields_read_back(o: Outcome)
    requires
        fits(o),
        plain_detail(o),
    ensures
        read_fields(words(tail_elapsed(o)), no_fields()) == fields_of_outcome(o),
{
    lemma_read_elapsed(o);
    let f1 = FieldsView { elapsed: opt_seconds(o.elapsed), ..no_fields() };
    lemma_read_first(o, f1);
    let f2 = FieldsView { first: fields_of_outcome(o).first, ..f1 };
    lemma_read_req(o, f2);
    let f3 = FieldsView { req: opt_bytes(o.req_bytes), ..f2 };
    lemma_read_bytes(o, f3);
    let f4 = FieldsView { resp: opt_bytes(o.bytes), ..f3 };
    lemma_read_tokens(o, f4);
}

/// The line for the end of a request is read as it was written.
pub proof fn law_finish_line_reads_back(stamp: Seq<char>, id: Seq<char>, o: Outcome)
    requires
        is_stamp(stamp),
        plain_id(id),
        fits(o),
        plain_detail(o),
    ensures
        read_line(plain_text(stamp, "INFO"@, finish_text(id, o))) == Some(
            RecordView::Finish(
                FinishView {
                    id,
                    clock: clock_text(stamp),
                    status: o.status,
                    fields: fields_of_outcome(o),
                },
            ),
        ),
{
    let body = finish_text(id, o);
    lemma_front(stamp, body);
    let front = "["@ + id;
    let status = decimal(o.status);
    let t = tail_elapsed(o);
    let after = status + t;
    lemma_finish_text_parts(id, o);
    reveal_strlit("] <- ");
    lemma_behind_bracket(id, "] <- "@);
    lemma_find_first(front, "] <- "@, after);
    assert(body.skip(front.len() as int + 5) =~= after);
    assert(id_before(body, front.len() as int) == Some(id)) by {
        reveal_strlit("[");
        assert(body[0] == front[0]);
        assert(body.subrange(1, front.len() as int) =~= id);
    }
    lemma_no_start(id, o);
    lemma_read_after(id, clock_text(stamp), o);
}

proof fn lemma_finish_text_parts(id: Seq<char>, o: Outcome)
    ensures
        finish_text(id, o) == "["@ + id + "] <- "@ + (decimal(o.status) + tail_elapsed(o)),
{
    let x = "["@ + id + "] <- "@;
    lemma_six(
        x + decimal(o.status),
        around(" 耗时 "@, opt_seconds(o.elapsed), "s"@),
        around(" 首包 "@, opt_millis(o.first_byte), "ms"@),
        around(" req "@, opt_bytes(o.req_bytes), ""@),
        around(" resp "@, opt_bytes(o.bytes), ""@),
        around(" "@, opt_decimal(o.tokens), " tok"@),
        tail_detail(o),
    );
    assert(x + decimal(o.status) + tail_elapsed(o) =~= x + (decimal(o.status) + tail_elapsed(o)));
}

/// The mark of a start is not in a text none of whose parts holds it.
proof fn lemma_no_mark(front: Seq<char>, figures: Seq<char>, d: Seq<char>)
    requires
        !contains(front, "] -> "@),
        lacks(figures, ']'),
        !contains(d, "] -> "@),
    ensures
        !contains(front + "] <- "@ + figures + " "@ + d, "] -> "@),
        !contains(front + "] <- "@ + figures, "] -> "@),
{
    reveal_strlit("] -> ");
    reveal_strlit("] <- ");
    reveal_strlit(" ");
    let pat = "] -> "@;
    let u = front + "] <- "@ + figures;
    let s = u + " "@ + d;
    let n = front.len() as int;
    let m = u.len() as int;
    lemma_find(front, pat);
    lemma_find(d, pat);
    lemma_find(s, pat);
    lemma_find(u, pat);
    if let Some(i) = find(s, pat) {
        let w = s.subrange(i, i + 5);
        assert(w[0] == s[i] && w[2] == s[i + 2]);
        assert(s[n] == ']' && s[n + 1] == ' ' && s[n + 2] == '<' && s[n + 3] == '-' && s[n + 4]
            == ' ');
        if i + 5 <= n {
            assert(front.subrange(i, i + 5) =~= w);
        } else if i < n {
            assert(w[n - i] == s[n]);
        } else if i >= m {
            assert(s[m] == ' ');
            let j = i - m - 1;
            assert(d.subrange(j, j + 5) =~= w);
        } else if i >= n + 5 {
            assert(s[i] == figures[i - n - 5]);
        }
    }
    if let Some(i) = find(u, pat) {
        assert(s.subrange(i, i + 5) =~= u.subrange(i, i + 5));
    }
}

/// The line for the end of a request does not look like one for a start.
proof fn lemma_no_start(id: Seq<char>, o: Outcome)
    requires
        plain_id(id),
        plain_detail(o),
    ensures
        find(finish_text(id, o), "] -> "@) is None,
{
    reveal(plain_detail);
    let front = "["@ + id;
    let t = around(" "@, opt_decimal(o.tokens), " tok"@);
    let figures = decimal(o.status) + front_of_tokens(o) + t;
    lemma_finish_text_parts(id, o);
    lemma_front_of_tokens(o);
    lemma_regrouped(
        front + "] <- "@,
        decimal(o.status),
        front_of_tokens(o),
        t,
        tail_detail(o),
    );
    lemma_brackets_in_figures(o);
    assert(find(front, "] -> "@) is None) by {
        reveal_strlit("] -> ");
        lemma_behind_bracket(id, "] -> "@);
    }
    lemma_no_mark(front, figures, o.detail);
    lemma_detail_behind(front + "] <- "@ + figures, o);
}

proof fn lemma_regrouped(x: Seq<char>, a: Seq<char>, b: Seq<char>, c: Seq<char>, d: Seq<char>)
    ensures
        x + (a + (b + (c + d))) == x + (a + b + c) + d,
{
    assert(x + (a + (b + (c + d))) =~= x + (a + b + c) + d);
}

proof fn lemma_detail_behind(x: Seq<char>, o: Outcome)
    ensures
        o.detail.len() == 0 ==> x + tail_detail(o) == x,
        o.detail.len() > 0 ==> x + tail_detail(o) == x + " "@ + o.detail,
{
    reveal_strlit("");
    if o.detail.len() == 0 {
        assert(x + tail_detail(o) =~= x);
    } else {
        assert(x + tail_detail(o) =~= x + " "@ + o.detail);
    }
}

proof fn lemma_brackets_in_figures(o: Outcome)
    ensures
        lacks(
            decimal(o.status) + front_of_tokens(o) + around(
                " "@,
                opt_decimal(o.tokens),
                " tok"@,
            ),
            ']',
        ),
{
    reveal_strlit(" 耗时 ");
    reveal_strlit("s");
    reveal_strlit(" 首包 ");
    reveal_strlit("ms");
    reveal_strlit(" req ");
    reveal_strlit(" resp ");
    reveal_strlit(" tok");
    reveal_strlit(" ");
    reveal_strlit("");
    lemma_figures_of(o);
    lemma_decimal_figure(o.status);
    lemma_figure(decimal(o.status));
    let p1 = around(" 耗时 "@, opt_seconds(o.elapsed), "s"@);
    let p2 = around(" 首包 "@, opt_millis(o.first_byte), "ms"@);
    let p3 = around(" req "@, opt_bytes(o.req_bytes), ""@);
    let p4 = around(" resp "@, opt_bytes(o.bytes), ""@);
    let p5 = around(" "@, opt_decimal(o.tokens), " tok"@);
    lemma_piece_lacks(opt_seconds(o.elapsed), ']');
    lemma_around_lacks(" 耗时 "@, opt_seconds(o.elapsed), "s"@, ']');
    lemma_piece_lacks(opt_millis(o.first_byte), ']');
    lemma_around_lacks(" 首包 "@, opt_millis(o.first_byte), "ms"@, ']');
    lemma_piece_lacks(opt_bytes(o.req_bytes), ']');
    lemma_around_lacks(" req "@, opt_bytes(o.req_bytes), ""@, ']');
    lemma_piece_lacks(opt_bytes(o.bytes), ']');
    lemma_around_lacks(" resp "@, opt_bytes(o.bytes), ""@, ']');
    lemma_piece_lacks(opt_decimal(o.tokens), ']');
    lemma_around_lacks(" "@, opt_decimal(o.tokens), " tok"@, ']');
    lemma_lacks_concat(p1, p2, ']');
    lemma_lacks_concat(p1 + p2, p3, ']');
    lemma_lacks_concat(p1 + p2 + p3, p4, ']');
    lemma_lacks_concat(decimal(o.status), front_of_tokens(o), ']');
    lemma_lacks_concat(decimal(o.status) + front_of_tokens(o), p5, ']');
}

/// What follows the id is read as it was written.
proof fn lemma_read_after(id: Seq<char>, clock: Seq<char>, o: Outcome)
    requires
        fits(o),
        plain_detail(o),
    ensures
        read_finish(id, clock, decimal(o.status) + tail_elapsed(o)) == Some(
            FinishView { id, clock, status: o.status, fields: fields_of_outcome(o) },
        ),
{
    let status = decimal(o.status);
    let t = tail_elapsed(o);
    let after = status + t;
    lemma_decimal_figure(o.status);
    lemma_figure(status);
    lemma_tails_are_spaced(o);
    assert(lacks(status, ' '));
    if t.len() > 0 {
        assert(after =~= status + seq![' '] + t.skip(1));
        lemma_first_char(status, ' ', t.skip(1));
        assert(after.skip(status.len() as int + 1) =~= t.skip(1));
        assert(trim_start(t) == trim_start(t.skip(1)));
    } else {
        assert(after =~= status);
        lemma_no_char(status, ' ');
        assert(t =~= Seq::<char>::empty());
    }
    assert(after.take(status.len() as int) =~= status);
    lemma_decimal_is_parsed(o.status, u16::MAX as nat);
    lemma_fields_read_back(o);
}

proof fn lemma_around_lacks(
    before: Seq<char>,
    piece: Option<Seq<char>>,
    after: Seq<char>,
    c: char,
)
    requires
        lacks(before, c),
        piece matches Some(p) ==> lacks(p, c),
        lacks(after, c),
    ensures
        lacks(around(before, piece, after), c),
{
    if let Some(p) = piece {
        lemma_lacks_concat(before, p, c);
        lemma_lacks_concat(before + p, after, c);
    }
}

// ---------------------------------------------------------------------------
// The summary, read back
// ---------------------------------------------------------------------------

proof fn lemma_stamp_is_on_one_line(stamp: Seq<char>)
    requires
        is_stamp(stamp),
    ensures
        lacks(stamp, '\n'),
{
    lemma_stamp(stamp);
    let clock = stamp.skip(stamp.len() - 12);
    assert forall|i: int| 0 <= i < stamp.len() implies #[trigger] stamp[i] != '\n' by {
        if i > stamp.len() - 13 {
            assert(clock[i - (stamp.len() - 12)] == stamp[i]);
        }
    }
}

/// A line lacks what its stamp and its message lack.
proof fn lemma_plain_lacks(stamp: Seq<char>, msg: Seq<char>, c: char)
    requires
        c == '\n',
        lacks(stamp, c),
        lacks(msg, c),
    ensures
        lacks(plain_text(stamp, "INFO"@, msg), c),
{
    reveal_strlit("INFO");
    reveal_strlit(" [");
    reveal_strlit("] ");
    let level = center("INFO"@, 5);
    assert(level =~= seq!['I', 'N', 'F', 'O', ' ']);
    lemma_lacks_concat(stamp, " ["@, c);
    lemma_lacks_concat(stamp + " ["@, level, c);
    lemma_lacks_concat(stamp + " ["@ + level, "] "@, c);
    lemma_lacks_concat(stamp + " ["@ + level + "] "@, msg, c);
}

proof fn lemma_start_lacks(
    id: Seq<char>,
    model: Option<Seq<char>>,
    method: Seq<char>,
    path: Seq<char>,
    upstream: Seq<char>,
    req_bytes: nat,
    c: char,
)
    requires
        c == '\n',
        lacks(id, c),
        lacks(or_dash(model), c),
        lacks(method, c),
        lacks(path, c),
        lacks(upstream, c),
    ensures
        lacks(start_text(id, model, method, path, upstream, req_bytes), c),
{
    reveal_strlit("[");
    reveal_strlit("] -> ");
    reveal_strlit(" ");
    reveal_strlit(" (req ");
    reveal_strlit(") 转发至 ");
    let size = bytes_text(req_bytes);
    lemma_bytes_figure(req_bytes);
    lemma_figure(size);
    let a = "["@ + id;
    lemma_lacks_concat("["@, id, c);
    let b = a + "] -> "@;
    lemma_lacks_concat(a, "] -> "@, c);
    let d = b + or_dash(model);
    lemma_lacks_concat(b, or_dash(model), c);
    let e = d + " "@;
    lemma_lacks_concat(d, " "@, c);
    let f = e + method;
    lemma_lacks_concat(e, method, c);
    let g = f + " "@;
    lemma_lacks_concat(f, " "@, c);
    let h = g + path;
    lemma_lacks_concat(g, path, c);
    let i = h + " (req "@;
    lemma_lacks_concat(h, " (req "@, c);
    let j = i + size;
    lemma_lacks_concat(i, size, c);
    let k = j + ") 转发至 "@;
    lemma_lacks_concat(j, ") 转发至 "@, c);
    lemma_lacks_concat(k, upstream, c);
}

proof fn lemma_piece_lacks(piece: Option<Seq<char>>, c: char)
    requires
        c == '\n' || c == '\r' || c == ']',
        piece matches Some(p) ==> is_figure(p),
    ensures
        piece matches Some(p) ==> lacks(p, c),
{
    if let Some(p) = piece {
        lemma_figure(p);
    }
}

proof fn lemma_finish_lacks(id: Seq<char>, o: Outcome, c: char)
    requires
        c == '\n' || c == '\r',
        lacks(id, c),
        plain_detail(o),
    ensures
        lacks(finish_text(id, o), c),
{
    reveal(plain_detail);
    reveal_strlit("[");
    reveal_strlit("] <- ");
    reveal_strlit(" 耗时 ");
    reveal_strlit("s");
    reveal_strlit(" 首包 ");
    reveal_strlit("ms");
    reveal_strlit(" req ");
    reveal_strlit(" resp ");
    reveal_strlit(" tok");
    reveal_strlit(" ");
    reveal_strlit("");
    lemma_figures_of(o);
    lemma_decimal_figure(o.status);
    lemma_figure(decimal(o.status));
    let p1 = around(" 耗时 "@, opt_seconds(o.elapsed), "s"@);
    let p2 = around(" 首包 "@, opt_millis(o.first_byte), "ms"@);
    let p3 = around(" req "@, opt_bytes(o.req_bytes), ""@);
    let p4 = around(" resp "@, opt_bytes(o.bytes), ""@);
    let p5 = around(" "@, opt_decimal(o.tokens), " tok"@);
    lemma_piece_lacks(opt_seconds(o.elapsed), c);
    lemma_around_lacks(" 耗时 "@, opt_seconds(o.elapsed), "s"@, c);
    lemma_piece_lacks(opt_millis(o.first_byte), c);
    lemma_around_lacks(" 首包 "@, opt_millis(o.first_byte), "ms"@, c);
    lemma_piece_lacks(opt_bytes(o.req_bytes), c);
    lemma_around_lacks(" req "@, opt_bytes(o.req_bytes), ""@, c);
    lemma_piece_lacks(opt_bytes(o.bytes), c);
    lemma_around_lacks(" resp "@, opt_bytes(o.bytes), ""@, c);
    lemma_piece_lacks(opt_decimal(o.tokens), c);
    lemma_around_lacks(" "@, opt_decimal(o.tokens), " tok"@, c);
    assert(opt_detail(o.detail) matches Some(p) ==> lacks(p, c)) by {
        lemma_words(o.detail);
        lemma_joined_words(words(o.detail));
    }
    lemma_around_lacks(" "@, opt_detail(o.detail), ""@, c);
    let a = "["@ + id;
    lemma_lacks_concat("["@, id, c);
    let b = a + "] <- "@;
    lemma_lacks_concat(a, "] <- "@, c);
    let d = b + decimal(o.status);
    lemma_lacks_concat(b, decimal(o.status), c);
    lemma_lacks_concat(d, p1, c);
    lemma_lacks_concat(d + p1, p2, c);
    lemma_lacks_concat(d + p1 + p2, p3, c);
    lemma_lacks_concat(d + p1 + p2 + p3, p4, c);
    lemma_lacks_concat(d + p1 + p2 + p3 + p4, p5, c);
    lemma_lacks_concat(d + p1 + p2 + p3 + p4 + p5, tail_detail(o), c);
}

/// Whether a text is whole lines.
pub open spec fn whole_lines_of_text(s: Seq<char>) -> bool {
    s.len() == 0 || s.last() == '\n'
}

/// The lines of whole lines and what follows them.
proof fn lemma_lines_of_both(a: Seq<char>, b: Seq<char>)
    requires
        whole_lines_of_text(a),
    ensures
        text_lines(a + b) == text_lines(a) + text_lines(b),
    decreases a.len(),
{
    let s = a + b;
    if a.len() == 0 {
        assert(s =~= b);
        assert(text_lines(a) + text_lines(b) =~= text_lines(b));
    } else {
        lemma_char_at_or_end(a, '\n');
        let i = char_at_or_end(a, '\n');
        if i >= a.len() {
            assert(a[a.len() - 1] != '\n');
        }
        assert forall|j: int| 0 <= j < i implies s[j] != '\n' by {
            assert(s[j] == a[j]);
        }
        lemma_char_at_or_end_unique(s, '\n', i);
        let rest = a.skip(i + 1);
        assert(rest.len() > 0 ==> rest.last() == a.last());
        assert(s.take(i) =~= a.take(i));
        assert(s.skip(i + 1) =~= rest + b);
        lemma_lines_of_both(rest, b);
        assert(text_lines(s) =~= text_lines(a) + text_lines(b));
    }
}

/// The line of a text of one line.
proof fn lemma_one_line(line: Seq<char>)
    requires
        lacks(line, '\n'),
        line.len() > 0,
        line.last() != '\r',
    ensures
        text_lines(line + "\n"@) == seq![line],
        whole_lines_of_text(line + "\n"@),
{
    reveal_strlit("\n");
    let s = line + "\n"@;
    let nothing = Seq::<char>::empty();
    assert(s =~= line + seq!['\n'] + nothing);
    lemma_first_char(line, '\n', nothing);
    assert(s.take(line.len() as int) =~= line);
    assert(s.skip(line.len() as int + 1) =~= nothing);
    assert(text_lines(nothing) =~= Seq::<Seq<char>>::empty());
    assert(text_lines(s) =~= seq![line]);
}

/// The records of two runs of lines.
proof fn lemma_records_of_both(a: Seq<Seq<char>>, b: Seq<Seq<char>>)
    ensures
        read_lines(a + b) == read_lines(a) + read_lines(b),
    decreases b.len(),
{
    if b.len() == 0 {
        assert(a + b =~= a);
        assert(read_lines(a) + read_lines(b) =~= read_lines(a));
    } else {
        lemma_records_of_both(a, b.drop_last());
        assert((a + b).drop_last() =~= a + b.drop_last());
        assert(read_lines(a + b) =~= read_lines(a) + read_lines(b));
    }
}

/// The record of a line that can be read.
proof fn lemma_one_record(line: Seq<char>, x: RecordView)
    requires
        read_line(line) == Some(x),
    ensures
        read_lines(seq![line]) == seq![x],
{
    let lines = seq![line];
    assert(lines.drop_last() =~= Seq::<Seq<char>>::empty());
    reveal_with_fuel(read_lines, 2);
    assert(read_lines(lines) =~= seq![x]);
}

/// The id of the request that a record tells of.
pub open spec fn told_of(r: RecordView) -> Seq<char> {
    match r {
        RecordView::Start(s) => s.id,
        RecordView::Finish(f) => f.id,
    }
}

/// Whether none of the lines tells of a request.
pub open spec fn silent_of(lines: Seq<Seq<char>>, id: Seq<char>) -> bool {
    forall|i: int| 0 <= i < read_lines(lines).len() ==> told_of(#[trigger] read_lines(lines)[i]) != id
}

/// A start waits for its end while other requests are told of.
proof fn lemma_start_waits(
    before: Seq<RecordView>,
    s: StartView,
    between: Seq<RecordView>,
    readings: Seq<ReadingView>,
)
    requires
        forall|i: int| 0 <= i < between.len() ==> told_of(#[trigger] between[i]) != s.id,
    ensures
        ({
            let p = pair_all(before.push(RecordView::Start(s)) + between, readings);
            p.starts.contains_key(s.id) && p.starts[s.id] == s
        }),
    decreases between.len(),
{
    let head = before.push(RecordView::Start(s));
    let all = head + between;
    if between.len() == 0 {
        assert(all =~= head);
        assert(head.drop_last() =~= before);
    } else {
        let fewer = between.drop_last();
        assert forall|i: int| 0 <= i < fewer.len() implies told_of(#[trigger] fewer[i]) != s.id by {
            assert(fewer[i] == between[i]);
        }
        lemma_start_waits(before, s, fewer, readings);
        assert(all.drop_last() =~= head + fewer);
        assert(told_of(between[between.len() - 1]) != s.id);
        assert(all.last() == between[between.len() - 1]);
    }
}

/// What the seconds in a line were read as shows the span that was written.
pub open spec fn reads_well(reading: ReadingView, elapsed: Option<nat>) -> bool {
    match reading {
        ReadingView::Nothing => elapsed is None,
        ReadingView::Span(d) => opt_duration(Some(d)) == opt_duration(elapsed),
        ReadingView::Unusable => false,
    }
}

/// The lines of a file that ends with whole lines, two of them given.
proof fn lemma_lines_of_file(
    before: Seq<char>,
    start: Seq<char>,
    between: Seq<char>,
    finish: Seq<char>,
)
    requires
        whole_lines_of_text(before),
        whole_lines_of_text(between),
        lacks(start, '\n') && start.len() > 0 && start.last() != '\r',
        lacks(finish, '\n') && finish.len() > 0 && finish.last() != '\r',
    ensures
        text_lines(before + (start + "\n"@) + between + (finish + "\n"@)) == text_lines(before)
            + seq![start] + text_lines(between) + seq![finish],
{
    reveal_strlit("\n");
    lemma_one_line(start);
    lemma_one_line(finish);
    let a = before + (start + "\n"@);
    let b = a + between;
    lemma_lines_of_both(before, start + "\n"@);
    assert(whole_lines_of_text(a)) by {
        assert(a.last() == '\n');
    }
    lemma_lines_of_both(a, between);
    assert(whole_lines_of_text(b)) by {
        assert(between.len() == 0 ==> b =~= a);
        assert(between.len() > 0 ==> b.last() == between.last());
    }
    lemma_lines_of_both(b, finish + "\n"@);
}

/// The two lines of a request, read back from the file, give the summary that was kept in
/// memory, whatever was logged before them, and whatever was logged of other requests between
/// them. This holds where success is told by the status, and where the seconds, which the file
/// holds to two digits, are read as a span that is shown in the same way.
pub proof fn law_summary_survives_a_restart(
    before: Seq<char>,
    stamp: Seq<char>,
    id: Seq<char>,
    model: Option<Seq<char>>,
    method: Seq<char>,
    path: Seq<char>,
    upstream: Seq<char>,
    req_bytes: nat,
    between: Seq<char>,
    end: Seq<char>,
    o: Outcome,
    readings: Seq<ReadingView>,
)
    requires
        whole_lines_of_text(before),
        whole_lines_of_text(between),
        silent_of(text_lines(between), id),
        is_stamp(stamp),
        is_stamp(end),
        plain_id(id),
        one_line(or_dash(model)) && lacks(or_dash(model), ' '),
        plain_target(method),
        plain_target(path),
        plain_address(upstream),
        fits(o),
        plain_detail(o),
        o.ok == is_success(o.status),
        ({
            let start = plain_text(
                stamp,
                "INFO"@,
                start_text(id, model, method, path, upstream, req_bytes),
            );
            let finish = plain_text(end, "INFO"@, finish_text(id, o));
            let file = encode_utf8(before + (start + "\n"@) + between + (finish + "\n"@));
            reads_well(reading_at(readings, records_in(file).len() - 1), o.elapsed)
        }),
    ensures
        ({
            let start = plain_text(
                stamp,
                "INFO"@,
                start_text(id, model, method, path, upstream, req_bytes),
            );
            let finish = plain_text(end, "INFO"@, finish_text(id, o));
            let file = encode_utf8(before + (start + "\n"@) + between + (finish + "\n"@));
            let out = pair_all(records_in(file), readings).out;
            &&& out.len() > 0
            &&& out.last() == summary_text(
                clock_text(stamp),
                or_dash(model) + " → "@ + short_upstream(upstream),
                Some(req_bytes),
                id,
                o,
            )
        }),
{
    let begun = start_text(id, model, method, path, upstream, req_bytes);
    let ended = finish_text(id, o);
    let start = plain_text(stamp, "INFO"@, begun);
    let finish = plain_text(end, "INFO"@, ended);
    let text = before + (start + "\n"@) + between + (finish + "\n"@);
    encode_utf8_valid_utf8(text);
    encode_utf8_decode_utf8(text);
    lemma_start_is_a_line(stamp, id, model, method, path, upstream, req_bytes);
    lemma_finish_is_a_line(end, id, o);
    lemma_lines_of_file(before, start, between, finish);
    law_start_line_reads_back(stamp, id, model, method, path, upstream, req_bytes);
    law_finish_line_reads_back(end, id, o);
    let s = StartView {
        id,
        clock: clock_text(stamp),
        model: or_dash(model),
        url: upstream,
        req: bytes_text(req_bytes),
    };
    let f = FinishView {
        id,
        clock: clock_text(end),
        status: o.status,
        fields: fields_of_outcome(o),
    };
    let x = RecordView::Start(s);
    let y = RecordView::Finish(f);
    lemma_one_record(start, x);
    lemma_one_record(finish, y);
    let l0 = text_lines(before);
    let l1 = text_lines(between);
    lemma_records_of_both(l0, seq![start]);
    lemma_records_of_both(l0 + seq![start], l1);
    lemma_records_of_both(l0 + seq![start] + l1, seq![finish]);
    let r0 = read_lines(l0);
    let r1 = read_lines(l1);
    let records = records_in(encode_utf8(text));
    assert(records == r0 + seq![x] + r1 + seq![y]);
    assert(r0 + seq![x] =~= r0.push(x));
    assert(records.drop_last() =~= r0.push(x) + r1);
    lemma_start_waits(r0, s, r1, readings);
    let reading = reading_at(readings, records.len() - 1);
    assert(records.last() == y);
    lemma_same_summary(s, f, o, req_bytes, reading);
}

proof fn lemma_start_is_a_line(
    stamp: Seq<char>,
    id: Seq<char>,
    model: Option<Seq<char>>,
    method: Seq<char>,
    path: Seq<char>,
    upstream: Seq<char>,
    req_bytes: nat,
)
    requires
        is_stamp(stamp),
        one_line(id),
        one_line(or_dash(model)),
        one_line(method),
        one_line(path),
        plain_address(upstream),
    ensures
        ({
            let line = plain_text(
                stamp,
                "INFO"@,
                start_text(id, model, method, path, upstream, req_bytes),
            );
            lacks(line, '\n') && line.len() > 0 && line.last() != '\r'
        }),
{
    let msg = start_text(id, model, method, path, upstream, req_bytes);
    let line = plain_text(stamp, "INFO"@, msg);
    lemma_stamp_is_on_one_line(stamp);
    lemma_start_lacks(id, model, method, path, upstream, req_bytes, '\n');
    lemma_plain_lacks(stamp, msg, '\n');
    reveal_strlit(") 转发至 ");
    assert(msg.len() > 0);
    assert(line.last() == msg.last());
    if upstream.len() > 0 {
        assert(msg.last() == upstream.last());
    } else {
        assert(msg.last() == ") 转发至 "@.last());
    }
}

proof fn lemma_finish_is_a_line(stamp: Seq<char>, id: Seq<char>, o: Outcome)
    requires
        is_stamp(stamp),
        one_line(id),
        plain_detail(o),
    ensures
        ({
            let line = plain_text(stamp, "INFO"@, finish_text(id, o));
            lacks(line, '\n') && line.len() > 0 && line.last() != '\r'
        }),
{
    let msg = finish_text(id, o);
    let line = plain_text(stamp, "INFO"@, msg);
    let none = Seq::<char>::empty();
    let same = finish_text(none, o);
    lemma_stamp_is_on_one_line(stamp);
    lemma_finish_lacks(id, o, '\n');
    lemma_plain_lacks(stamp, msg, '\n');
    lemma_finish_lacks(none, o, '\r');
    lemma_finish_text_parts(id, o);
    lemma_finish_text_parts(none, o);
    lemma_decimal_figure(o.status);
    let after = decimal(o.status) + tail_elapsed(o);
    assert(after.len() > 0);
    assert(msg.last() == after.last());
    assert(same.last() == after.last());
    assert(same[same.len() - 1] != '\r');
    assert(line.last() == msg.last());
}

/// The text of lines, each with its newline.
pub open spec fn text_of_lines(lines: Seq<Seq<char>>) -> Seq<char>
    decreases lines.len(),
{
    if lines.len() == 0 {
        seq![]
    } else {
        text_of_lines(lines.drop_last()) + (lines.last() + "\n"@)
    }
}

/// A request that was logged, from its start to its end, has the same summary in memory and in
/// the file that the log has been appended to. This holds as [`law_summary_survives_a_restart`]
/// does.
pub proof fn law_file_and_memory_agree(
    state: LoggerView,
    before: Seq<char>,
    stamp: Seq<char>,
    id: Seq<char>,
    model: Option<Seq<char>>,
    method: Seq<char>,
    path: Seq<char>,
    upstream: Seq<char>,
    req_bytes: nat,
    end: Seq<char>,
    o: Outcome,
    readings: Seq<ReadingView>,
)
    requires
        state.file is Some,
        whole_lines_of_text(before),
        is_stamp(stamp),
        is_stamp(end),
        plain_id(id),
        one_line(or_dash(model)) && lacks(or_dash(model), ' '),
        plain_target(method),
        plain_target(path),
        plain_address(upstream),
        fits(o),
        plain_detail(o),
        o.ok == is_success(o.status),
        ({
            let opened = start_run(
                begin(state),
                stamp,
                id,
                model,
                method,
                path,
                upstream,
                req_bytes,
            );
            let closed = finish_run(opened, end, id, o);
            let file = encode_utf8(before + text_of_lines(appended(closed.effects)));
            reads_well(reading_at(readings, records_in(file).len() - 1), o.elapsed)
        }),
    ensures
        ({
            let opened = start_run(
                begin(state),
                stamp,
                id,
                model,
                method,
                path,
                upstream,
                req_bytes,
            );
            let closed = finish_run(opened, end, id, o);
            let file = encode_utf8(before + text_of_lines(appended(closed.effects)));
            let out = pair_all(records_in(file), readings).out;
            &&& out.len() > 0 && closed.state.summaries.len() > 0
            &&& out.last() == closed.state.summaries.last()
        }),
{
    let r = begin(state);
    let opened = start_run(r, stamp, id, model, method, path, upstream, req_bytes);
    let closed = finish_run(opened, end, id, o);
    let start = plain_text(
        stamp,
        "INFO"@,
        start_text(id, model, method, path, upstream, req_bytes),
    );
    let finish = plain_text(end, "INFO"@, finish_text(id, o));
    lemma_start_appends(r, stamp, id, model, method, path, upstream, req_bytes);
    lemma_finish_appends(opened, end, id, o);
    let lines = appended(closed.effects);
    assert(appended(r.effects) =~= Seq::<Seq<char>>::empty());
    assert(lines =~= seq![start, finish]);
    assert(lines.drop_last() =~= seq![start]);
    assert(lines.drop_last().drop_last() =~= Seq::<Seq<char>>::empty());
    reveal_with_fuel(text_of_lines, 3);
    let none = Seq::<char>::empty();
    assert(before + text_of_lines(lines) =~= before + (start + "\n"@) + none + (finish + "\n"@));
    assert(text_lines(none) =~= Seq::<Seq<char>>::empty());
    assert(read_lines(text_lines(none)).len() == 0);
    law_summary_survives_a_restart(
        before,
        stamp,
        id,
        model,
        method,
        path,
        upstream,
        req_bytes,
        none,
        end,
        o,
        readings,
    );
    law_finish_closes_what_start_opened(
        r,
        stamp,
        id,
        model,
        method,
        path,
        upstream,
        req_bytes,
        end,
        o,
    );
}

/// The summary that is read back is the one that was kept.
proof fn lemma_same_summary(
    s: StartView,
    f: FinishView,
    o: Outcome,
    req_bytes: nat,
    reading: ReadingView,
)
    requires
        s.req == bytes_text(req_bytes),
        f.status == o.status,
        f.fields == fields_of_outcome(o),
        plain_detail(o),
        o.ok == is_success(o.status),
        reads_well(reading, o.elapsed),
    ensures
        history_line(
            Some(s),
            f,
            match reading {
                ReadingView::Span(d) => Some(d),
                _ => None,
            },
        ) == summary_text(
            s.clock,
            s.model + " → "@ + short_upstream(s.url),
            Some(req_bytes),
            f.id,
            o,
        ),
{
    reveal(plain_detail);
    let elapsed = match reading {
        ReadingView::Span(d) => Some(d),
        _ => None,
    };
    let size = first_some(o.req_bytes, Some(req_bytes));
    lemma_figures_of(o);
    lemma_bytes_figure(req_bytes);
    lemma_figure(bytes_text(req_bytes));
    if let Some(b) = opt_bytes(o.req_bytes) {
        lemma_figure(b);
    }
    assert(known_size(f.fields.req, s.req) == opt_bytes(size));
    assert(opt_decimal(f.fields.first) == opt_millis(o.first_byte));
    assert(history_parts(known_size(f.fields.req, s.req), f.status, f.fields, elapsed)
        == summary_parts(size, o));
    lemma_words_of_detail(o);
    lemma_no_words();
    if o.detail.len() == 0 {
        assert(o.detail =~= Seq::<char>::empty());
    }
    assert(joined_detail(f.fields.detail) == opt_detail(o.detail));
}

/// Every line for the end of a request that can be read gives one summary, behind those that are
/// there: it begins with a time of day and the id, and tells the status, with a check where that
/// has the form 2xx, and a cross where it has not.
pub proof fn law_every_end_is_summed_up(
    records: Seq<RecordView>,
    f: FinishView,
    readings: Seq<ReadingView>,
)
    requires
        !(reading_at(readings, records.len() as int) is Unusable),
    ensures
        ({
            let before = pair_all(records, readings);
            let after = pair_all(records.push(RecordView::Finish(f)), readings);
            let clock = if before.starts.contains_key(f.id) {
                before.starts[f.id].clock
            } else {
                f.clock
            };
            &&& after.out.len() > 0
            &&& before.out.len() < 200 ==> after.out.drop_last() == before.out
            &&& before.out.len() >= 200 ==> after.out.drop_last() == before.out.skip(1)
            &&& starts_with(after.out.last(), clock + " ▶ ["@ + f.id + "] "@)
            &&& stands_in(
                (if f.status / 100 == 2 {
                    "✔ "@
                } else {
                    "✘ "@
                }) + decimal(f.status),
                after.out.last(),
            )
        }),
{
    let all = records.push(RecordView::Finish(f));
    let before = pair_all(records, readings);
    let after = pair_all(all, readings);
    assert(all.drop_last() =~= records);
    let start = crate::table::at(before.starts, f.id);
    let elapsed = match reading_at(readings, records.len() as int) {
        ReadingView::Span(d) => Some(d),
        _ => None,
    };
    let line = history_line(start, f, elapsed);
    assert(after.out.last() == line);
    assert(before.out.len() < 200 ==> after.out.drop_last() =~= before.out);
    assert(before.out.len() >= 200 ==> after.out.drop_last() =~= before.out.skip(1));
    lemma_history_line_tells(start, f, elapsed);
}

proof fn lemma_history_line_tells(start: Option<StartView>, f: FinishView, elapsed: Option<nat>)
    ensures
        ({
            let line = history_line(start, f, elapsed);
            let clock = match start {
                Some(s) => s.clock,
                None => f.clock,
            };
            &&& starts_with(line, clock + " ▶ ["@ + f.id + "] "@)
            &&& stands_in(
                (if f.status / 100 == 2 {
                    "✔ "@
                } else {
                    "✘ "@
                }) + decimal(f.status),
                line,
            )
        }),
{
    reveal_strlit(" ");
    reveal_strlit("✔");
    reveal_strlit("✘");
    reveal_strlit("✔ ");
    reveal_strlit("✘ ");
    let line = history_line(start, f, elapsed);
    let (clock, head, req) = match start {
        Some(s) => (s.clock, s.model + " → "@ + short_upstream(s.url), s.req),
        None => (f.clock, "-"@, "-"@),
    };
    let size = known_size(f.fields.req, req);
    let parts = history_parts(size, f.status, f.fields, elapsed);
    let j = join(parts, " · "@);
    let end = around(" "@, joined_detail(f.fields.detail), ""@);
    let tag = clock + " ▶ ["@ + f.id + "] "@;
    let front = tag + head + " "@;
    assert(line == front + j + end);
    assert(line.take(tag.len() as int) =~= tag);
    let k = around_list("↑ "@, size, ""@).len() as int;
    let first = icon(is_success(f.status)) + " "@ + decimal(f.status) + around(
        " "@,
        opt_duration(elapsed),
        ""@,
    );
    assert(parts[k] == first);
    let mark = (if f.status / 100 == 2 {
        "✔ "@
    } else {
        "✘ "@
    }) + decimal(f.status);
    assert(is_success(f.status) <==> f.status / 100 == 2);
    assert(first.subrange(0int, 0int + mark.len()) =~= mark);
    lemma_parts_stand_in_joined(parts, " · "@, k);
    lemma_part_within(mark, first, j);
    lemma_part_of_part(mark, front, j, end);
}

} // verus!
