//! Looking at the log: its last lines, the lines of the present session, and what is added.
use crate::console::session_text;
use crate::stream::{lemma_newline_at, lemma_newline_at_unique, newline_at};
use crate::text::{
    chars_of, contains, contains_text, join, join_texts, keep_last, last_of,
    law_contained_stands_somewhere, lemma_char_at_or_end_unique, lines_of, opt_string, stands_in,
    text_lines,
};
use crate::utf8::{
    lemma_encode_concat, lemma_newlines_in_bytes, lemma_valid_is_whole, lemma_valid_up_to, one_line,
    read_lossy, read_utf8, text_in, valid_prefix,
};
use vstd::prelude::*;
use vstd::utf8::*;

verus! {

/// The last lines of a text.
pub open spec fn last_lines_text(text: Seq<char>, n: nat) -> Seq<char> {
    join(last_of(text_lines(text), n), "\n"@) + "\n"@
}

/// The last `n` lines of a log, or nothing where it is not well-formed text.
pub fn last_lines(data: &[u8], n: usize) -> (r: Option<String>)
    ensures
        opt_string(r) == (if valid_utf8(data@) {
            Some(last_lines_text(decode_utf8(data@), n as nat))
        } else {
            None
        }),
{
    proof {
        lemma_valid_up_to(data@);
        assert(data@.take(data@.len() as int) =~= data@);
        if valid_utf8(data@) {
            lemma_valid_is_whole(data@);
        }
    }
    if valid_prefix(data) != data.len() {
        return None;
    }
    let text = read_utf8(data);
    let lines = lines_of(chars_of(text.as_str()).as_slice());
    let last = keep_last(&lines, n);
    let mut out = join_texts(&last, "\n");
    out.append("\n");
    Some(out)
}

/// Whether a line marks the start of a session.
pub open spec fn starts_session(line: Seq<u8>) -> bool {
    valid_utf8(line) && contains(decode_utf8(line), "######"@)
}

/// Where the last session begins, from position `base` on: at the last closed line that marks a
/// start. `data` is the rest of the log.
pub open spec fn session_in(data: Seq<u8>, base: nat) -> Option<nat>
    decreases data.len(),
    via session_in_decreases
{
    let i = newline_at(data);
    if i >= data.len() {
        None
    } else {
        match session_in(data.skip(i + 1), (base + i + 1) as nat) {
            Some(at) => Some(at),
            None => if starts_session(data.take(i + 1)) {
                Some(base)
            } else {
                None
            },
        }
    }
}

#[via_fn]
proof fn session_in_decreases(data: Seq<u8>, base: nat) {
    lemma_newline_at(data);
}

/// What was found, or else what had been found before.
pub open spec fn found_or(found: Option<nat>, before: Option<nat>) -> Option<nat> {
    match found {
        Some(at) => Some(at),
        None => before,
    }
}

/// The position, as a number.
pub open spec fn opt_position(p: Option<usize>) -> Option<nat> {
    match p {
        Some(p) => Some(p as nat),
        None => None,
    }
}

fn marks_session(line: &[u8]) -> (r: bool)
    ensures
        r == starts_session(line@),
{
    proof {
        lemma_valid_up_to(line@);
        assert(line@.take(line@.len() as int) =~= line@);
        if valid_utf8(line@) {
            lemma_valid_is_whole(line@);
        }
    }
    valid_prefix(line) == line.len() && contains_text(read_utf8(line).as_str(), "######")
}

/// Where the last session in a log begins, in bytes.
pub fn session_start_offset(data: &[u8]) -> (r: Option<usize>)
    ensures
        opt_position(r) == session_in(data@, 0),
{
    let n = data.len();
    let mut from: usize = 0;
    let mut found: Option<usize> = None;
    assert(data@.skip(0) =~= data@);
    loop
        invariant
            from <= n,
            n == data@.len(),
            session_in(data@, 0) == found_or(
                session_in(data@.skip(from as int), from as nat),
                opt_position(found),
            ),
        decreases n - from,
    {
        let ghost rest = data@.skip(from as int);
        let mut i: usize = from;
        while i < n && data[i] != 10
            invariant
                from <= i <= n,
                n == data@.len(),
                forall|j: int| from <= j < i ==> data@[j] != 10,
            decreases n - i,
        {
            i += 1;
        }
        proof {
            assert forall|j: int| 0 <= j < i - from implies rest[j] != 10 by {
                assert(rest[j] == data@[from + j]);
            }
            lemma_newline_at_unique(rest, i - from);
        }
        if i >= n {
            return found;
        }
        let line = vstd::slice::slice_subrange(data, from, i + 1);
        proof {
            assert(line@ =~= rest.take(i - from + 1));
            assert(rest.skip(i - from + 1) =~= data@.skip(i + 1));
        }
        if marks_session(line) {
            found = Some(from);
        }
        from = i + 1;
    }
}

/// What is shown before the log is followed: the present session, or else the last lines.
pub open spec fn replay_text(data: Seq<u8>, n: nat) -> Option<Seq<char>> {
    match session_in(data, 0) {
        Some(at) => Some(text_in(data.skip(at as int))),
        None => if valid_utf8(data) {
            Some(last_lines_text(decode_utf8(data), n))
        } else {
            None
        },
    }
}

proof fn lemma_session_is_inside(data: Seq<u8>, base: nat)
    ensures
        session_in(data, base) matches Some(at) ==> base <= at < base + data.len(),
    decreases data.len(),
{
    lemma_newline_at(data);
    let i = newline_at(data);
    if i < data.len() {
        lemma_session_is_inside(data.skip(i + 1), (base + i + 1) as nat);
    }
}

/// What is shown before the log is followed, or nothing where it cannot be read. Following then
/// begins at the end of `data`, so that nothing is shown twice.
pub fn replay(data: &[u8], n: usize) -> (r: Option<String>)
    ensures
        opt_string(r) == replay_text(data@, n as nat),
{
    match session_start_offset(data) {
        Some(at) => {
            proof {
                lemma_session_is_inside(data@, 0);
            }
            let rest = vstd::slice::slice_subrange(data, at, data.len());
            assert(rest@ =~= data@.skip(at as int));
            Some(read_lossy(rest))
        },
        None => last_lines(data, n),
    }
}

/// Where to read on in a log that is followed: from its start where it has become shorter, for
/// then it is a new one.
pub fn follow_from(position: u64, len: u64) -> (r: u64)
    ensures
        r == (if len < position {
            0
        } else {
            position
        }),
{
    if len < position {
        0
    } else {
        position
    }
}

// ---------------------------------------------------------------------------
// Where following begins
// ---------------------------------------------------------------------------

/// Whether bytes are whole lines.
pub open spec fn whole_lines(b: Seq<u8>) -> bool {
    b.len() == 0 || b.last() == 10
}

/// The last mark of two runs of lines is that of the second, or else that of the first.
proof fn lemma_session_of_concat(a: Seq<u8>, b: Seq<u8>, base: nat)
    requires
        whole_lines(a),
    ensures
        session_in(a + b, base) == found_or(
            session_in(b, (base + a.len()) as nat),
            session_in(a, base),
        ),
    decreases a.len(),
{
    if a.len() == 0 {
        assert(a + b =~= b);
        lemma_newline_at(a);
    } else {
        lemma_newline_at(a);
        let i = newline_at(a);
        let c = a + b;
        if i >= a.len() {
            assert(a[a.len() - 1] != 10);
        }
        lemma_newline_at_unique(c, i);
        assert(c.take(i + 1) =~= a.take(i + 1));
        assert(c.skip(i + 1) =~= a.skip(i + 1) + b);
        let rest = a.skip(i + 1);
        assert(rest.len() > 0 ==> rest.last() == a.last());
        lemma_session_of_concat(rest, b, (base + i + 1) as nat);
    }
}

proof fn lemma_no_session_anywhere(b: Seq<u8>, x: nat, y: nat)
    ensures
        session_in(b, x) is None <==> session_in(b, y) is None,
    decreases b.len(),
{
    lemma_newline_at(b);
    let i = newline_at(b);
    if i < b.len() {
        lemma_no_session_anywhere(b.skip(i + 1), (x + i + 1) as nat, (y + i + 1) as nat);
    }
}

/// Following the log begins at the mark of the last session: what was logged before is not
/// shown, what was logged since is.
pub proof fn law_following_begins_at_the_last_mark(
    before: Seq<u8>,
    time: Seq<char>,
    bind: Seq<char>,
    after: Seq<u8>,
)
    requires
        whole_lines(before),
        one_line(time),
        one_line(bind),
        session_in(after, 0) is None,
    ensures
        session_in(before + encode_utf8(session_text(time, bind) + "\n"@) + after, 0) == Some(
            before.len(),
        ),
{
    let text = session_text(time, bind);
    let line = encode_utf8(text + "\n"@);
    let raw = encode_utf8(text);
    reveal_strlit("\n");
    reveal_strlit("###### ");
    reveal_strlit(" 启动 http://");
    reveal_strlit(" ######");
    reveal_strlit("######");
    lemma_encode_concat(text, "\n"@);
    assert(encode_utf8("\n"@) =~= seq![10u8]) by {
        is_ascii_chars_encode_utf8("\n"@);
    }
    assert(line =~= raw + seq![10u8]);
    assert(one_line(text)) by {
        let a = "###### "@ + time;
        let b = a + " 启动 http://"@;
        let c = b + bind;
        assert forall|i: int| 0 <= i < text.len() implies text[i] != '\n' by {
            if i < a.len() {
                assert(text[i] == a[i]);
            } else if i < b.len() {
                assert(text[i] == " 启动 http://"@[i - a.len()]);
            } else if i < c.len() {
                assert(text[i] == bind[i - b.len()]);
            } else {
                assert(text[i] == " ######"@[i - c.len()]);
            }
        }
    }
    lemma_newlines_in_bytes(text);
    lemma_newline_at_unique(line, raw.len() as int);
    assert(line.take(raw.len() as int + 1) =~= line);
    assert(line.skip(raw.len() as int + 1) =~= Seq::<u8>::empty());
    encode_utf8_valid_utf8(text + "\n"@);
    encode_utf8_decode_utf8(text + "\n"@);
    let whole = text + "\n"@;
    assert(whole.subrange(0, 6) =~= "######"@);
    assert(contains(whole, "######"@));
    assert(starts_session(line));
    lemma_newline_at(Seq::<u8>::empty());
    let at = before.len();
    assert(session_in(Seq::<u8>::empty(), (at + raw.len() as int + 1) as nat) is None);
    assert(session_in(line, at) == Some(at));
    let head = before + line;
    assert(head.last() == line.last());
    lemma_session_of_concat(before, line, 0);
    lemma_session_of_concat(head, after, 0);
    lemma_no_session_anywhere(after, 0, head.len());
}

/// Where a session is found, a line begins that holds the mark; no closed line behind it does.
pub proof fn law_session_is_the_last_mark(data: Seq<u8>, at: nat)
    requires
        session_in(data, 0) == Some(at),
    ensures
        at < data.len(),
        at == 0 || data[at - 1] == 10,
        starts_session(
            data.skip(at as int).take(newline_at(data.skip(at as int)) + 1),
        ),
        session_in(data.skip(at + newline_at(data.skip(at as int)) + 1), 0) is None,
{
    lemma_session_at(data, 0, at);
    assert(data.skip(at as int - 0) =~= data.skip(at as int));
}

proof fn lemma_session_at(data: Seq<u8>, base: nat, at: nat)
    requires
        session_in(data, base) == Some(at),
    ensures
        ({
            let k = at - base;
            let line = data.skip(k);
            &&& 0 <= k < data.len()
            &&& k == 0 || data[k - 1] == 10
            &&& 0 <= newline_at(line) < line.len()
            &&& starts_session(line.take(newline_at(line) + 1))
            &&& session_in(data.skip(k + newline_at(line) + 1), 0) is None
        }),
    decreases data.len(),
{
    lemma_newline_at(data);
    let i = newline_at(data);
    assert(i < data.len());
    let rest = data.skip(i + 1);
    let next = (base + i + 1) as nat;
    match session_in(rest, next) {
        Some(_) => {
            lemma_session_at(rest, next, at);
            let k = at - next;
            assert(rest.skip(k) =~= data.skip(at - base));
            let line = data.skip(at - base);
            assert(rest.skip(k + newline_at(line) + 1) =~= data.skip(
                at - base + newline_at(line) + 1,
            ));
            if k == 0 {
                assert(data[i] == 10);
            } else {
                assert(rest[k - 1] == data[at - base - 1]);
            }
        },
        None => {
            assert(data.skip(0) =~= data);
            lemma_no_session_anywhere(rest, next, 0);
        },
    }
}

/// Lines, each closed by a newline.
pub open spec fn closed_text(lines: Seq<Seq<char>>) -> Seq<char>
    decreases lines.len(),
{
    if lines.len() == 0 {
        seq![]
    } else {
        closed_text(lines.drop_last()) + lines.last() + "\n"@
    }
}

/// The last lines of a log are shown as they are, and no others.
pub proof fn law_last_lines_are_shown(lines: Seq<Seq<char>>, n: nat)
    requires
        forall|i: int|
            0 <= i < lines.len() ==> one_line(#[trigger] lines[i]) && (lines[i].len() == 0
                || lines[i].last() != '\r'),
        lines.len() > 0,
        n > 0,
    ensures
        last_lines_text(closed_text(lines), n) == closed_text(
            if n < lines.len() {
                lines.skip(lines.len() - n)
            } else {
                lines
            },
        ),
{
    lemma_lines_of_closed(lines);
    let last = last_of(lines, n);
    lemma_closed_is_joined(last);
}

proof fn lemma_closed_is_joined(lines: Seq<Seq<char>>)
    requires
        lines.len() > 0,
    ensures
        closed_text(lines) == join(lines, "\n"@) + "\n"@,
    decreases lines.len(),
{
    let before = lines.drop_last();
    if lines.len() == 1 {
        assert(before =~= Seq::<Seq<char>>::empty());
        assert(closed_text(before) =~= Seq::<char>::empty());
        assert(closed_text(lines) =~= lines[0] + "\n"@);
    } else {
        lemma_closed_is_joined(before);
        assert(closed_text(lines) =~= join(lines, "\n"@) + "\n"@);
    }
}

proof fn lemma_lines_of_closed(lines: Seq<Seq<char>>)
    requires
        forall|i: int|
            0 <= i < lines.len() ==> one_line(#[trigger] lines[i]) && (lines[i].len() == 0
                || lines[i].last() != '\r'),
    ensures
        text_lines(closed_text(lines)) == lines,
    decreases lines.len(),
{
    reveal_strlit("\n");
    if lines.len() == 0 {
        assert(text_lines(closed_text(lines)) =~= lines);
    } else {
        let first = lines[0];
        let rest = lines.skip(1);
        lemma_closed_from_front(lines);
        let s = closed_text(lines);
        let t = closed_text(rest);
        assert(s =~= first + "\n"@ + t);
        assert forall|i: int| 0 <= i < rest.len() implies one_line(#[trigger] rest[i]) && (
        rest[i].len() == 0 || rest[i].last() != '\r') by {
            assert(rest[i] == lines[i + 1]);
        }
        lemma_lines_of_closed(rest);
        let n = first.len() as int;
        assert forall|j: int| 0 <= j < n implies s[j] != '\n' by {
            assert(s[j] == first[j]);
        }
        assert(s[n] == '\n');
        lemma_char_at_or_end_unique(s, '\n', n);
        assert(s.take(n) =~= first);
        assert(s.skip(n + 1) =~= t);
        assert(seq![first] + rest =~= lines);
    }
}

proof fn lemma_closed_from_front(lines: Seq<Seq<char>>)
    requires
        lines.len() > 0,
    ensures
        closed_text(lines) == lines[0] + "\n"@ + closed_text(lines.skip(1)),
    decreases lines.len(),
{
    let before = lines.drop_last();
    if lines.len() == 1 {
        assert(before =~= Seq::<Seq<char>>::empty());
        assert(lines.skip(1) =~= Seq::<Seq<char>>::empty());
        assert(closed_text(lines) =~= lines[0] + "\n"@ + closed_text(lines.skip(1)));
    } else {
        lemma_closed_from_front(before);
        let rest = lines.skip(1);
        assert(rest.drop_last() =~= before.skip(1));
        assert(rest.last() == lines.last());
        assert(closed_text(lines) =~= lines[0] + "\n"@ + closed_text(rest));
    }
}

/// What is shown before the log is followed is the present session, to its end; where there is
/// none, the last lines.
pub proof fn law_session_is_shown_to_its_end(
    before: Seq<u8>,
    time: Seq<char>,
    bind: Seq<char>,
    after: Seq<char>,
    n: nat,
)
    requires
        whole_lines(before),
        one_line(time),
        one_line(bind),
        session_in(encode_utf8(after), 0) is None,
    ensures
        replay_text(before + encode_utf8(session_text(time, bind) + "\n"@) + encode_utf8(after), n)
            == Some(session_text(time, bind) + "\n"@ + after),
{
    let mark = session_text(time, bind) + "\n"@;
    law_following_begins_at_the_last_mark(before, time, bind, encode_utf8(after));
    let data = before + encode_utf8(mark) + encode_utf8(after);
    lemma_encode_concat(mark, after);
    let shown = data.skip(before.len() as int);
    assert(shown =~= encode_utf8(mark + after));
    encode_utf8_valid_utf8(mark + after);
    encode_utf8_decode_utf8(mark + after);
}

/// Every closed line that holds the mark begins a session: the session that is found is that line,
/// or one behind it.
pub proof fn law_every_mark_is_found(before: Seq<u8>, line: Seq<char>, after: Seq<u8>)
    requires
        whole_lines(before),
        one_line(line),
        stands_in("######"@, line),
    ensures
        session_in(before + encode_utf8(line + "\n"@) + after, 0) matches Some(at) && at
            >= before.len(),
{
    let raw = encode_utf8(line + "\n"@);
    let at = before.len();
    reveal_strlit("\n");
    lemma_closed_line(line);
    let whole = line + "\n"@;
    let mark = "######"@;
    let i = choose|i: int|
        0 <= i && i + mark.len() <= line.len() && #[trigger] line.subrange(i, i + mark.len())
            == mark;
    assert(whole.subrange(i, i + mark.len()) =~= line.subrange(i, i + mark.len()));
    law_contained_stands_somewhere(whole, mark);
    encode_utf8_valid_utf8(whole);
    encode_utf8_decode_utf8(whole);
    assert(starts_session(raw));
    lemma_newline_at(Seq::<u8>::empty());
    assert(raw.take(raw.len() as int) =~= raw);
    assert(raw.skip(raw.len() as int) =~= Seq::<u8>::empty());
    assert(session_in(Seq::<u8>::empty(), (at + raw.len()) as nat) is None);
    assert(session_in(raw, at) == Some(at));
    let head = before + raw;
    assert(head.last() == raw.last());
    lemma_session_of_concat(before, raw, 0);
    lemma_session_of_concat(head, after, 0);
    lemma_session_is_behind(after, head.len());
}

/// The bytes of a closed line end with its only newline.
proof fn lemma_closed_line(line: Seq<char>)
    requires
        one_line(line),
    ensures
        ({
            let raw = encode_utf8(line + "\n"@);
            &&& raw.len() > 0
            &&& raw.last() == 10
            &&& newline_at(raw) == raw.len() - 1
        }),
{
    reveal_strlit("\n");
    lemma_encode_concat(line, "\n"@);
    assert(encode_utf8("\n"@) =~= seq![10u8]) by {
        is_ascii_chars_encode_utf8("\n"@);
    }
    let body = encode_utf8(line);
    let raw = encode_utf8(line + "\n"@);
    assert(raw =~= body + seq![10u8]);
    lemma_newlines_in_bytes(line);
    lemma_newline_at_unique(raw, body.len() as int);
}

proof fn lemma_session_is_behind(data: Seq<u8>, base: nat)
    ensures
        session_in(data, base) matches Some(at) ==> at >= base,
    decreases data.len(),
{
    lemma_newline_at(data);
    let i = newline_at(data);
    if i < data.len() {
        lemma_session_is_behind(data.skip(i + 1), (base + i + 1) as nat);
    }
}

/// Where no line holds the mark, no session is found, and the last lines are shown.
pub proof fn law_without_a_mark_the_last_lines_are_shown(lines: Seq<Seq<char>>, n: nat)
    requires
        forall|i: int|
            0 <= i < lines.len() ==> one_line(#[trigger] lines[i]) && !stands_in(
                "######"@,
                lines[i],
            ) && (lines[i].len() == 0 || lines[i].last() != '\r'),
        lines.len() > 0,
        n > 0,
    ensures
        session_in(encode_utf8(closed_text(lines)), 0) is None,
        replay_text(encode_utf8(closed_text(lines)), n) == Some(
            closed_text(
                if n < lines.len() {
                    lines.skip(lines.len() - n)
                } else {
                    lines
                },
            ),
        ),
{
    lemma_no_mark_no_session(lines);
    law_last_lines_are_shown(lines, n);
    encode_utf8_valid_utf8(closed_text(lines));
    encode_utf8_decode_utf8(closed_text(lines));
}

proof fn lemma_no_mark_no_session(lines: Seq<Seq<char>>)
    requires
        forall|i: int|
            0 <= i < lines.len() ==> one_line(#[trigger] lines[i]) && !stands_in(
                "######"@,
                lines[i],
            ),
    ensures
        session_in(encode_utf8(closed_text(lines)), 0) is None,
        whole_lines(encode_utf8(closed_text(lines))),
    decreases lines.len(),
{
    if lines.len() == 0 {
        assert(closed_text(lines) =~= Seq::<char>::empty());
        assert(encode_utf8(closed_text(lines)).len() == 0);
        lemma_newline_at(encode_utf8(closed_text(lines)));
    } else {
        let before = lines.drop_last();
        let line = lines.last();
        let mark = "######"@;
        lemma_no_mark_no_session(before);
        lemma_closed_line(line);
        let whole = line + "\n"@;
        let raw = encode_utf8(whole);
        assert(closed_text(lines) =~= closed_text(before) + whole);
        lemma_encode_concat(closed_text(before), whole);
        reveal_strlit("\n");
        reveal_strlit("######");
        encode_utf8_valid_utf8(whole);
        encode_utf8_decode_utf8(whole);
        assert(raw.take(raw.len() as int) =~= raw);
        assert(raw.skip(raw.len() as int) =~= Seq::<u8>::empty());
        if stands_in(mark, whole) {
            let i = choose|i: int|
                0 <= i && i + mark.len() <= whole.len() && #[trigger] whole.subrange(
                    i,
                    i + mark.len(),
                ) == mark;
            assert(whole.subrange(i, i + mark.len())[5] == '#');
            assert(i + 6 <= line.len());
            assert(line.subrange(i, i + mark.len()) =~= whole.subrange(i, i + mark.len()));
        }
        law_contained_stands_somewhere(whole, mark);
        assert(!starts_session(raw));
        lemma_newline_at(Seq::<u8>::empty());
        let first = encode_utf8(closed_text(before));
        assert(session_in(Seq::<u8>::empty(), (first.len() + raw.len()) as nat) is None);
        assert(session_in(raw, first.len()) is None);
        lemma_session_of_concat(first, raw, 0);
        assert((first + raw).last() == raw.last());
    }
}

} // verus!
