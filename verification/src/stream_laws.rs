//! What holds of the normalizer over whole streams.
use crate::decimal::decimal;
use crate::json::{json_literal, lemma_literal_is_printable};
use crate::stream::{
    after_line, after_lines, closed_lines, delivered, drain_state, error_frame_text, finish,
    first_goes_out, framed, fresh, is_done, kept, leftover_report, lemma_lines_of_concat,
    lemma_newline_at, lemma_newline_at_unique, lemma_newline_is_boundary, lemma_no_newline,
    lemma_nothing_follows_the_last_newline, lemma_one_closed_line, lemma_open_tail, line_state,
    line_text, newline_at, no_newline, open_tail, payload, push_lines, push_state, reported_usage,
    start, taken, truncated, NormalizerView, Progress,
};
use crate::text::{
    ends_with, law_contained_stands_somewhere, lemma_trim_start, stands_in, trim, trim_end_char,
    trim_start, white_space,
};
use crate::utf8::{
    lemma_bad_byte, lemma_encode_concat, lemma_mended, lemma_newlines_in_bytes, lemma_partial,
    lemma_settled_after, lemma_settled_is_valid, lemma_settled_stays, lemma_text_is_not_mended,
    lemma_valid_is_settled, lemma_valid_up_to, lemma_waiting, mended, one_line, partial,
    replacement, settled, valid_up_to, waiting,
};
use vstd::prelude::*;
use vstd::utf8::*;

verus! {

// ---------------------------------------------------------------------------
// Runs of lines
// ---------------------------------------------------------------------------

/// What was handed out before changes nothing of what comes after.
proof fn lemma_out_is_a_log(p: Progress, log: Seq<Seq<char>>, raw: Seq<Seq<u8>>)
    ensures
        after_lines((Progress { out: log + p.out, ..p }), raw) == (Progress {
            out: log + after_lines(p, raw).out,
            ..after_lines(p, raw)
        }),
    decreases raw.len(),
{
    if raw.len() > 0 {
        lemma_out_is_a_log(p, log, raw.drop_last());
        let q = after_lines(p, raw.drop_last());
        let line = line_text(raw.last());
        assert forall|text: Seq<char>| #[trigger] (log + q.out).push(text) == log + q.out.push(
            text,
        ) by {
            assert((log + q.out).push(text) =~= log + q.out.push(text));
        }
    }
}

/// A run of lines can be taken in two parts.
proof fn lemma_two_runs(p: Progress, a: Seq<Seq<u8>>, b: Seq<Seq<u8>>)
    ensures
        after_lines(p, a + b) == after_lines(after_lines(p, a), b),
    decreases b.len(),
{
    if b.len() == 0 {
        assert(a + b =~= a);
    } else {
        lemma_two_runs(p, a, b.drop_last());
        assert((a + b).drop_last() =~= a + b.drop_last());
    }
}

// ---------------------------------------------------------------------------
// How the stream is cut does not matter
// ---------------------------------------------------------------------------

proof fn lemma_settled_without_newlines(b: Seq<u8>)
    requires
        no_newline(b),
    ensures
        no_newline(settled(b)),
    decreases b.len(),
{
    if b.len() == 0 || partial(b) {
    } else {
        let n: int = if valid_first_scalar(b) {
            length_of_first_scalar(b)
        } else {
            1
        };
        let first = if valid_first_scalar(b) {
            take_first_scalar(b)
        } else {
            replacement()
        };
        let rest = b.skip(n);
        assert(valid_first_scalar(b) ==> pop_first_scalar(b) =~= rest);
        assert forall|i: int| 0 <= i < rest.len() implies rest[i] != 10 by {
            assert(rest[i] == b[i + n]);
        }
        lemma_settled_without_newlines(rest);
        assert forall|i: int| 0 <= i < settled(b).len() implies settled(b)[i] != 10 by {
            if i < first.len() {
                assert(settled(b)[i] == first[i]);
            } else {
                assert(settled(b)[i] == settled(rest)[i - first.len()]);
            }
        }
    }
}

proof fn lemma_last_newline_is_settled(b: Seq<u8>)
    requires
        b.len() > 0,
        b.last() == 10,
    ensures
        settled(b).len() > 0,
        settled(b).last() == 10,
        waiting(b).len() == 0,
    decreases b.len(),
{
    lemma_waiting(b);
    if partial(b) {
        lemma_partial(b);
        assert(b[b.len() - 1] == 10);
    } else {
        let n: int = if valid_first_scalar(b) {
            length_of_first_scalar(b)
        } else {
            1
        };
        let rest = b.skip(n);
        assert(valid_first_scalar(b) ==> pop_first_scalar(b) =~= rest);
        if rest.len() > 0 {
            assert(rest.last() == b.last());
            lemma_last_newline_is_settled(rest);
            assert(settled(b).last() == settled(rest).last());
        } else {
            assert(b[b.len() - 1] == 10);
            assert(is_leading_byte_width_1(10u8));
            if !valid_first_scalar(b) {
                assert(b[0] == 10);
                lemma_newline_is_a_character(b);
            }
            assert(settled(rest) =~= Seq::<u8>::empty());
            assert(take_first_scalar(b) =~= b);
            assert(settled(b) =~= b);
        }
    }
}

proof fn lemma_newline_is_a_character(b: Seq<u8>)
    requires
        b.len() > 0,
        b[0] == 10,
    ensures
        valid_first_scalar(b),
{
    assert((10u8 & 0x7f) as u32 == 10) by (bit_vector);
}

/// What is kept is read like what follows the last newline.
proof fn lemma_kept(b: Seq<u8>)
    ensures
        settled(kept(b)) == open_tail(settled(b)),
        waiting(kept(b)) == waiting(b),
{
    let r = open_tail(b);
    lemma_open_tail(b);
    lemma_mended(r);
    let n = b.len() - r.len();
    let c = b.take(n);
    assert(b =~= c + r);
    lemma_settled_stays(c, r);
    lemma_settled_without_newlines(r);
    lemma_no_newline(settled(r));
    if n > 0 {
        lemma_newline_before_tail(b);
        lemma_last_newline_is_settled(c);
        lemma_nothing_follows_the_last_newline(settled(c));
        assert(waiting(c) + r =~= r);
        lemma_lines_of_concat(settled(c), settled(r));
        assert(open_tail(settled(c)) + settled(r) =~= settled(r));
    } else {
        assert(b =~= r);
    }
}

/// The open tail is all there is, or comes behind a newline.
proof fn lemma_newline_before_tail(b: Seq<u8>)
    ensures
        open_tail(b).len() <= b.len(),
        open_tail(b).len() < b.len() ==> b[b.len() - open_tail(b).len() - 1] == 10,
    decreases b.len(),
{
    lemma_newline_at(b);
    let i = newline_at(b);
    if i < b.len() {
        let rest = b.skip(i + 1);
        lemma_newline_before_tail(rest);
        if open_tail(rest).len() < rest.len() {
            let j = rest.len() - open_tail(rest).len() - 1;
            assert(rest[j] == b[i + 1 + j]);
        }
    }
}

/// Whether two normalizers go on alike: they differ at most in the number of rejoined lines, and
/// in which ill-formed bytes of their buffers have been replaced.
pub open spec fn alike(a: NormalizerView, b: NormalizerView) -> bool {
    &&& settled(a.buffer) == settled(b.buffer)
    &&& waiting(a.buffer) == waiting(b.buffer)
    &&& a == (NormalizerView { buffer: a.buffer, rejoined: a.rejoined, ..b })
}

/// Normalizers that are alike hand out the same lines, and stay alike.
pub proof fn law_alike_go_on_alike(a: NormalizerView, b: NormalizerView, chunk: Seq<u8>)
    requires
        alike(a, b),
    ensures
        push_lines(a, chunk) == push_lines(b, chunk),
        alike(push_state(a, chunk), push_state(b, chunk)),
{
    lemma_settled_stays(a.buffer, chunk);
    lemma_settled_stays(b.buffer, chunk);
    lemma_kept(a.buffer + chunk);
    lemma_kept(b.buffer + chunk);
}

/// What a chunk leaves in the buffer, and the next chunk, are read like the two chunks at once.
proof fn lemma_two_chunks_of_bytes(b: Seq<u8>, y: Seq<u8>)
    ensures
        taken(b + y) == taken(b) + taken(kept(b) + y),
        settled(kept(b + y)) == settled(kept(kept(b) + y)),
        waiting(kept(b + y)) == waiting(kept(kept(b) + y)),
{
    lemma_kept(b);
    lemma_kept(b + y);
    lemma_kept(kept(b) + y);
    lemma_settled_stays(b, y);
    lemma_settled_stays(kept(b), y);
    lemma_lines_of_concat(settled(b), settled(waiting(b) + y));
}

/// Two chunks bring out the same lines as the two in one, and leave the normalizer alike.
pub proof fn law_two_chunks(n: NormalizerView, x: Seq<u8>, y: Seq<u8>)
    ensures
        push_lines(n, x + y) == push_lines(n, x) + push_lines(push_state(n, x), y),
        alike(push_state(n, x + y), push_state(push_state(n, x), y)),
{
    let b = n.buffer + x;
    assert(n.buffer + (x + y) =~= b + y);
    lemma_two_chunks_of_bytes(b, y);
    let n1 = push_state(n, x);
    let p = finish(n, x);
    lemma_two_runs(start(n), taken(b), taken(kept(b) + y));
    assert(p.out + start(n1).out =~= p.out);
    lemma_out_is_a_log(start(n1), p.out, taken(kept(b) + y));
    assert(Progress { out: p.out + start(n1).out, ..start(n1) } == p);
}

/// The bytes of a list of chunks.
pub open spec fn joined(chunks: Seq<Seq<u8>>) -> Seq<u8>
    decreases chunks.len(),
{
    if chunks.len() == 0 {
        seq![]
    } else {
        chunks[0] + joined(chunks.skip(1))
    }
}

/// The lines that a list of chunks brings out.
pub open spec fn all_lines(n: NormalizerView, chunks: Seq<Seq<u8>>) -> Seq<Seq<char>>
    decreases chunks.len(),
{
    if chunks.len() == 0 {
        seq![]
    } else {
        push_lines(n, chunks[0]) + all_lines(push_state(n, chunks[0]), chunks.skip(1))
    }
}

/// The normalizer after a list of chunks.
pub open spec fn state_after(n: NormalizerView, chunks: Seq<Seq<u8>>) -> NormalizerView
    decreases chunks.len(),
{
    if chunks.len() == 0 {
        n
    } else {
        state_after(push_state(n, chunks[0]), chunks.skip(1))
    }
}

/// A stream gives the same lines however it is cut into chunks, also where a cut falls inside a
/// character or a line, and whatever its bytes are: the chunks one by one bring out what they
/// bring out at once, and leave the normalizer alike.
pub proof fn law_cuts_do_not_matter(n: NormalizerView, chunks: Seq<Seq<u8>>)
    requires
        chunks.len() > 0,
    ensures
        all_lines(n, chunks) == push_lines(n, joined(chunks)),
        alike(state_after(n, chunks), push_state(n, joined(chunks))),
    decreases chunks.len(),
{
    let x = chunks[0];
    let more = chunks.skip(1);
    let n1 = push_state(n, x);
    if more.len() == 0 {
        assert(joined(more) =~= Seq::<u8>::empty());
        assert(x + joined(more) =~= x);
        assert(push_lines(n, x) + all_lines(n1, more) =~= push_lines(n, x));
    } else {
        law_two_chunks(n, x, joined(more));
        law_cuts_do_not_matter(n1, more);
    }
}

// ---------------------------------------------------------------------------
// What is handed out
// ---------------------------------------------------------------------------

/// How many of the lines are `data: [DONE]`.
pub open spec fn count_done(lines: Seq<Seq<char>>) -> nat
    decreases lines.len(),
{
    if lines.len() == 0 {
        0
    } else {
        count_done(lines.drop_last()) + if lines.last() == "data: [DONE]"@ {
            1nat
        } else {
            0nat
        }
    }
}

proof fn lemma_count_done_of_concat(a: Seq<Seq<char>>, b: Seq<Seq<char>>)
    ensures
        count_done(a + b) == count_done(a) + count_done(b),
    decreases b.len(),
{
    if b.len() == 0 {
        assert(a + b =~= a);
    } else {
        lemma_count_done_of_concat(a, b.drop_last());
        assert((a + b).drop_last() =~= a + b.drop_last());
    }
}

/// A line that goes out is `data: [DONE]` exactly where it closes the stream.
proof fn lemma_done_line(line: Seq<char>, done: bool)
    requires
        delivered(line, done) is Some,
    ensures
        (delivered(line, done) == Some("data: [DONE]"@)) <==> is_done(line),
        is_done(line) ==> !done,
{
    reveal_strlit("data: [DONE]");
    reveal_strlit("data: ");
    reveal_strlit("data:");
    reveal_strlit("[DONE]");
    assert("data: "@ + "[DONE]"@ =~= "data: [DONE]"@);
    match payload(line) {
        None => {
            if line == "data: [DONE]"@ {
                assert(line.take(5) =~= "data:"@);
            }
        },
        Some(data) => {
            let out = "data: "@ + data;
            if out == "data: [DONE]"@ {
                assert(out.skip(6) =~= data);
                assert("data: [DONE]"@.skip(6) =~= "[DONE]"@);
            }
        },
    }
}

/// What a run of lines adds up to.
proof fn lemma_run_adds_up(p: Progress, raw: Seq<Seq<u8>>)
    ensures
        after_lines(p, raw).emitted - p.emitted == after_lines(p, raw).out.len() - p.out.len(),
        after_lines(p, raw).out.len() + after_lines(p, raw).dropped <= p.out.len() + p.dropped
            + raw.len(),
        p.done ==> after_lines(p, raw).done,
        count_done(after_lines(p, raw).out) == count_done(p.out) + if !p.done && after_lines(
            p,
            raw,
        ).done {
            1nat
        } else {
            0nat
        },
    decreases raw.len(),
{
    if raw.len() > 0 {
        lemma_run_adds_up(p, raw.drop_last());
        let q = after_lines(p, raw.drop_last());
        let line = line_text(raw.last());
        if line.len() > 0 && delivered(line, q.done) is Some {
            lemma_done_line(line, q.done);
            let text = delivered(line, q.done)->0;
            assert(q.out.push(text).drop_last() =~= q.out);
        }
    }
}

/// Every line that is handed out is counted, once.
pub proof fn law_emitted_counts_the_lines(n: NormalizerView, chunk: Seq<u8>)
    ensures
        push_state(n, chunk).emitted == n.emitted + push_lines(n, chunk).len(),
{
    lemma_run_adds_up(start(n), taken(n.buffer + chunk));
}

/// However many chunks come, `[DONE]` is handed out at most once, and never again after it was.
pub proof fn law_done_goes_out_once(n: NormalizerView, chunks: Seq<Seq<u8>>)
    ensures
        count_done(all_lines(n, chunks)) <= 1,
        n.done_seen ==> count_done(all_lines(n, chunks)) == 0,
        state_after(n, chunks).done_seen <==> n.done_seen || count_done(all_lines(n, chunks)) == 1,
    decreases chunks.len(),
{
    if chunks.len() > 0 {
        lemma_run_adds_up(start(n), taken(n.buffer + chunks[0]));
        law_done_goes_out_once(push_state(n, chunks[0]), chunks.skip(1));
        lemma_count_done_of_concat(
            push_lines(n, chunks[0]),
            all_lines(push_state(n, chunks[0]), chunks.skip(1)),
        );
    }
}

/// What no newline closes is not handed out: it waits in the buffer.
pub proof fn law_open_line_waits(n: NormalizerView, chunk: Seq<u8>)
    requires
        no_newline(n.buffer + chunk),
    ensures
        push_lines(n, chunk).len() == 0,
        push_state(n, chunk) == (NormalizerView { buffer: mended(n.buffer + chunk), ..n }),
{
    let b = n.buffer + chunk;
    lemma_settled_without_newlines(b);
    lemma_no_newline(settled(b));
    lemma_no_newline(b);
}

/// A line that a newline closes does not wait, whatever its bytes are: after a chunk that ends
/// with a newline, nothing is left in the buffer.
pub proof fn law_closed_lines_do_not_wait(n: NormalizerView, chunk: Seq<u8>)
    requires
        chunk.len() > 0,
        chunk.last() == 10,
    ensures
        push_state(n, chunk).buffer.len() == 0,
{
    let b = n.buffer + chunk;
    assert(b.last() == chunk.last());
    lemma_nothing_follows_the_last_newline(b);
    lemma_valid_up_to(open_tail(b));
}

/// What is left in the buffer is the start of a line: it holds no newline.
pub proof fn law_buffer_holds_no_newline(n: NormalizerView, chunk: Seq<u8>)
    ensures
        no_newline(push_state(n, chunk).buffer),
{
    let t = open_tail(n.buffer + chunk);
    let k = mended(t);
    let v = valid_up_to(t) as int;
    lemma_open_tail(n.buffer + chunk);
    lemma_valid_up_to(t);
    assert forall|i: int| 0 <= i < k.len() implies k[i] != 10 by {
        if k != t {
            if i < v {
                assert(k[i] == t[i]);
            } else if i < v + 3 {
                assert(k[i] == replacement()[i - v]);
            } else {
                assert(k[i] == t[i - 2]);
            }
        }
    }
}

/// Where the chunks are the start of a text, what is left in the buffer is what follows the last
/// newline, as it came. Here `rest` is the part of the text that has not arrived.
pub proof fn law_buffer_is_what_is_pending(chunks: Seq<Seq<u8>>, rest: Seq<u8>)
    requires
        valid_utf8(joined(chunks) + rest),
    ensures
        state_after(fresh(), chunks).buffer == open_tail(joined(chunks)),
{
    let none = Seq::<u8>::empty();
    lemma_no_newline(none);
    assert(none + joined(chunks) =~= joined(chunks));
    lemma_pending(fresh(), none, chunks, rest);
}

proof fn lemma_pending(n: NormalizerView, before: Seq<u8>, chunks: Seq<Seq<u8>>, rest: Seq<u8>)
    requires
        n.buffer == open_tail(before),
        valid_utf8(before + joined(chunks) + rest),
    ensures
        state_after(n, chunks).buffer == open_tail(before + joined(chunks)),
    decreases chunks.len(),
{
    if chunks.len() == 0 {
        assert(before + joined(chunks) =~= before);
    } else {
        let x = chunks[0];
        let more = joined(chunks.skip(1));
        let now = before + x;
        lemma_lines_of_concat(before, x);
        let t = open_tail(now);
        assert(before + joined(chunks) + rest =~= now + (more + rest));
        lemma_tail_of_text(now, more + rest);
        lemma_text_is_not_mended(t, more + rest);
        assert(now + more + rest =~= now + (more + rest));
        assert(now + more =~= before + joined(chunks));
        lemma_pending(push_state(n, x), now, chunks.skip(1), rest);
    }
}

/// What follows a newline of a text is a text.
proof fn lemma_tail_of_text(b: Seq<u8>, rest: Seq<u8>)
    requires
        valid_utf8(b + rest),
    ensures
        valid_utf8(open_tail(b) + rest),
    decreases b.len(),
{
    lemma_newline_at(b);
    let i = newline_at(b);
    if i < b.len() {
        let w = b + rest;
        assert(w[i] == 10);
        lemma_newline_is_boundary(w, i);
        assert(w.skip(i + 1) =~= b.skip(i + 1) + rest);
        lemma_tail_of_text(b.skip(i + 1), rest);
    }
}

/// Draining empties the buffer and changes no counter but that of dropped frames; draining again
/// changes nothing.
pub proof fn law_draining_is_final(n: NormalizerView)
    ensures
        drain_state(n).buffer.len() == 0,
        drain_state(n) == (NormalizerView {
            buffer: seq![],
            dropped: drain_state(n).dropped,
            ..n
        }),
        n.dropped <= drain_state(n).dropped <= n.dropped + 1,
        drain_state(drain_state(n)) == drain_state(n),
{
}

// ---------------------------------------------------------------------------
// What becomes of each kind of line
// ---------------------------------------------------------------------------

/// Carriage returns, as many as are asked for.
pub open spec fn line_ends(n: nat) -> Seq<char> {
    Seq::new(n, |i: int| '\r')
}

/// Whether a text is blanks and tabs, or other white space on one line.
pub open spec fn is_blank(s: Seq<char>) -> bool {
    forall|i: int|
        0 <= i < s.len() ==> #[trigger] s[i] == ' ' || s[i] == '\t' || (white_space(s[i]) && s[i]
            != '\n')
}

/// Whether a text can be the payload of a frame: on one line, and with no white space at its
/// start and no carriage return at its end.
pub open spec fn is_payload(s: Seq<char>) -> bool {
    &&& s.len() > 0
    &&& one_line(s)
    &&& ' ' < s[0] < '\u{7f}' || !white_space(s[0])
    &&& s.last() != '\r'
}

proof fn lemma_line_ends_are_trimmed(s: Seq<char>, n: nat)
    requires
        s.len() == 0 || s.last() != '\r',
    ensures
        trim_end_char(s + line_ends(n), '\r') == s,
    decreases n,
{
    let t = s + line_ends(n);
    if n > 0 {
        lemma_line_ends_are_trimmed(s, (n - 1) as nat);
        assert(t.drop_last() =~= s + line_ends((n - 1) as nat));
    } else {
        assert(t =~= s);
    }
}

proof fn lemma_blanks_are_trimmed(w: Seq<char>, s: Seq<char>)
    requires
        is_blank(w),
        s.len() > 0 ==> !white_space(s[0]),
    ensures
        trim_start(w + s) == s,
    decreases w.len(),
{
    let t = w + s;
    if w.len() > 0 {
        assert(white_space(w[0]));
        let v = w.skip(1);
        assert forall|i: int| 0 <= i < v.len() implies #[trigger] v[i] == ' ' || v[i] == '\t' || (
        white_space(v[i]) && v[i] != '\n') by {
            assert(v[i] == w[i + 1]);
        }
        lemma_blanks_are_trimmed(v, s);
        assert(t.skip(1) =~= v + s);
    } else {
        assert(t =~= s);
    }
}

/// The payload of a frame, written with blanks before it.
proof fn lemma_payload_of_frame(w: Seq<char>, s: Seq<char>)
    requires
        is_blank(w),
        s.len() > 0 ==> !white_space(s[0]),
    ensures
        payload("data:"@ + w + s) == Some(s),
{
    reveal_strlit("data:");
    let line = "data:"@ + w + s;
    assert(line.take(5) =~= "data:"@);
    assert(line.skip(5) =~= w + s);
    lemma_blanks_are_trimmed(w, s);
}

/// What a chunk does that completes one line.
proof fn lemma_completed_line(n: NormalizerView, chunk: Seq<u8>, line: Seq<char>, k: nat)
    requires
        one_line(line),
        line.len() == 0 || line.last() != '\r',
        n.buffer + chunk == encode_utf8(line + line_ends(k) + "\n"@),
    ensures
        finish(n, chunk) == after_line(start(n), line),
        push_state(n, chunk).buffer == Seq::<u8>::empty(),
        first_goes_out(taken(n.buffer + chunk), n.done_seen) <==> line.len() > 0 && delivered(
            line,
            n.done_seen,
        ) is Some,
{
    let whole = line + line_ends(k);
    assert(one_line(whole)) by {
        assert forall|i: int| 0 <= i < whole.len() implies whole[i] != '\n' by {
            if i < line.len() {
                assert(whole[i] == line[i]);
            }
        }
    }
    lemma_one_closed_line(n.buffer + chunk, whole);
    lemma_line_ends_are_trimmed(line, k);
    let raw = taken(n.buffer + chunk);
    assert(raw.drop_last() =~= Seq::<Seq<u8>>::empty());
    reveal_with_fuel(after_lines, 2);
    assert(push_state(n, chunk).buffer =~= Seq::<u8>::empty());
}

/// A frame that is complete is passed on: whatever its payload is, it goes out behind `data: `,
/// and nothing is dropped. It may have arrived in pieces, and end with carriage returns.
pub proof fn law_every_frame_goes_out(
    n: NormalizerView,
    chunk: Seq<u8>,
    w: Seq<char>,
    s: Seq<char>,
    k: nat,
)
    requires
        is_blank(w),
        is_payload(s),
        s != "[DONE]"@,
        n.buffer + chunk == encode_utf8("data:"@ + w + s + line_ends(k) + "\n"@),
    ensures
        push_lines(n, chunk) == seq!["data: "@ + s],
        push_state(n, chunk) == (NormalizerView {
            buffer: seq![],
            emitted: n.emitted + 1,
            rejoined: n.rejoined + if n.buffer.len() > 0 {
                1nat
            } else {
                0nat
            },
            usage_tokens: push_state(n, chunk).usage_tokens,
            ..n
        }),
        !stands_in("\"usage\""@, s) ==> push_state(n, chunk).usage_tokens == n.usage_tokens,
{
    reveal_strlit("data:");
    let line = "data:"@ + w + s;
    lemma_payload_of_frame(w, s);
    lemma_frame_is_one_line(w, s);
    assert(line.last() == s.last());
    lemma_completed_line(n, chunk, line, k);
    law_contained_stands_somewhere(s, "\"usage\""@);
    assert(push_lines(n, chunk) =~= seq!["data: "@ + s]);
}

proof fn lemma_frame_is_one_line(w: Seq<char>, s: Seq<char>)
    requires
        is_blank(w),
        one_line(s),
    ensures
        one_line("data:"@ + w + s),
{
    reveal_strlit("data:");
    let line = "data:"@ + w + s;
    assert forall|i: int| 0 <= i < line.len() implies line[i] != '\n' by {
        if i >= 5 + w.len() {
            assert(line[i] == s[i - 5 - w.len()]);
        } else if i >= 5 {
            assert(line[i] == w[i - 5]);
        }
    }
}

/// The first `[DONE]` goes out and is noted; any other is dropped.
pub proof fn law_only_the_first_done_goes_out(
    n: NormalizerView,
    chunk: Seq<u8>,
    w: Seq<char>,
    k: nat,
)
    requires
        is_blank(w),
        n.buffer + chunk == encode_utf8("data:"@ + w + "[DONE]"@ + line_ends(k) + "\n"@),
    ensures
        !n.done_seen ==> push_lines(n, chunk) == seq!["data: [DONE]"@] && push_state(n, chunk) == (
        NormalizerView {
            buffer: seq![],
            done_seen: true,
            emitted: n.emitted + 1,
            rejoined: n.rejoined + if n.buffer.len() > 0 {
                1nat
            } else {
                0nat
            },
            ..n
        }),
        n.done_seen ==> push_lines(n, chunk) == Seq::<Seq<char>>::empty() && push_state(n, chunk)
            == (NormalizerView { buffer: seq![], dropped: n.dropped + 1, ..n }),
{
    reveal_strlit("data:");
    reveal_strlit("data: ");
    reveal_strlit("[DONE]");
    reveal_strlit("data: [DONE]");
    let line = "data:"@ + w + "[DONE]"@;
    lemma_payload_of_frame(w, "[DONE]"@);
    lemma_frame_is_one_line(w, "[DONE]"@);
    lemma_completed_line(n, chunk, line, k);
    assert("data: "@ + "[DONE]"@ =~= "data: [DONE]"@);
    if !n.done_seen {
        assert(push_lines(n, chunk) =~= seq!["data: [DONE]"@]);
    }
}

/// A frame without a payload is dropped, and counted.
pub proof fn law_empty_frame_is_dropped(n: NormalizerView, chunk: Seq<u8>, w: Seq<char>, k: nat)
    requires
        is_blank(w),
        w.len() == 0 || w.last() != '\r',
        n.buffer + chunk == encode_utf8("data:"@ + w + line_ends(k) + "\n"@),
    ensures
        push_lines(n, chunk) == Seq::<Seq<char>>::empty(),
        push_state(n, chunk) == (NormalizerView { buffer: seq![], dropped: n.dropped + 1, ..n }),
{
    reveal_strlit("data:");
    let none = Seq::<char>::empty();
    let line = "data:"@ + w;
    assert(line + none =~= line);
    lemma_payload_of_frame(w, none);
    lemma_frame_is_one_line(w, none);
    lemma_completed_line(n, chunk, line, k);
    assert(push_lines(n, chunk) =~= Seq::<Seq<char>>::empty());
}

/// A line that is no frame goes out as it is: an event, an id, a comment.
pub proof fn law_other_lines_go_out(n: NormalizerView, chunk: Seq<u8>, line: Seq<char>, k: nat)
    requires
        line.len() > 0,
        one_line(line),
        line.last() != '\r',
        line.len() < 5 || line.take(5) != "data:"@,
        n.buffer + chunk == encode_utf8(line + line_ends(k) + "\n"@),
    ensures
        push_lines(n, chunk) == seq![line],
        push_state(n, chunk) == (NormalizerView {
            buffer: seq![],
            emitted: n.emitted + 1,
            rejoined: n.rejoined + if n.buffer.len() > 0 {
                1nat
            } else {
                0nat
            },
            ..n
        }),
{
    reveal_strlit("data:");
    lemma_completed_line(n, chunk, line, k);
    assert(push_lines(n, chunk) =~= seq![line]);
}

/// An empty line closes a frame: nothing goes out for it, and nothing is counted.
pub proof fn law_empty_line_is_nothing(n: NormalizerView, chunk: Seq<u8>, k: nat)
    requires
        n.buffer + chunk == encode_utf8(line_ends(k) + "\n"@),
    ensures
        push_lines(n, chunk) == Seq::<Seq<char>>::empty(),
        push_state(n, chunk) == (NormalizerView { buffer: seq![], ..n }),
{
    let none = Seq::<char>::empty();
    assert(none + line_ends(k) =~= line_ends(k));
    lemma_completed_line(n, chunk, none, k);
    assert(push_lines(n, chunk) =~= Seq::<Seq<char>>::empty());
}

/// A byte that is in no text stands for one replacement character: the rest of the line is as if
/// that had come.
pub proof fn law_bad_byte_is_one_replacement(
    n: NormalizerView,
    a: Seq<char>,
    x: u8,
    b: Seq<char>,
)
    requires
        n.buffer.len() == 0,
        x >= 0xf5,
        b.len() > 0,
    ensures
        push_lines(n, encode_utf8(a) + seq![x] + encode_utf8(b)) == push_lines(
            n,
            encode_utf8(a + seq!['\u{fffd}'] + b),
        ),
{
    let ab = encode_utf8(a);
    let bb = encode_utf8(b);
    let bad = ab + seq![x] + bb;
    let good = encode_utf8(a + seq!['\u{fffd}'] + b);
    assert(n.buffer + bad =~= bad);
    assert(n.buffer + good =~= good);
    encode_utf8_valid_utf8(a);
    encode_utf8_valid_utf8(b);
    encode_utf8_valid_utf8(a + seq!['\u{fffd}'] + b);
    lemma_encode_concat(a + seq!['\u{fffd}'], b);
    lemma_encode_concat(a, seq!['\u{fffd}']);
    lemma_replacement_is_encoded();
    lemma_valid_is_settled(good);
    let t = seq![x] + bb;
    assert(bad =~= ab + t);
    lemma_settled_after(ab, t);
    lemma_bad_byte(t);
    assert(t.skip(1) =~= bb);
    lemma_valid_is_settled(bb);
    assert(settled(bad) =~= good);
}

/// The encoding of the replacement character.
proof fn lemma_replacement_is_encoded()
    ensures
        encode_utf8(seq!['\u{fffd}']) == replacement(),
{
    let c = '\u{fffd}';
    let s = seq![c];
    assert(s.drop_first() =~= Seq::<char>::empty());
    assert(encode_utf8(s.drop_first()) =~= Seq::<u8>::empty());
    let v = c as u32;
    assert(v == 0xfffdu32);
    assert(0xE0u8 | ((0xfffdu32 >> 12) & 0x0F) as u8 == 0xefu8) by (bit_vector);
    assert(0x80u8 | ((0xfffdu32 >> 6) & 0x3F) as u8 == 0xbfu8) by (bit_vector);
    assert(0x80u8 | (0xfffdu32 & 0x3F) as u8 == 0xbdu8) by (bit_vector);
    assert(encode_scalar(v) =~= replacement());
    assert(encode_utf8(s) =~= replacement());
}

/// A long text is cut in the middle: its start and its end stay, and a mark stands for the rest.
pub proof fn law_both_ends_stay(s: Seq<char>, n: nat)
    ensures
        s.len() <= n || n == 0 ==> truncated(s, n) == s,
        s.len() > n && n > 0 ==> {
            let t = truncated(s, n);
            let h = (n / 2) as int;
            &&& t.len() == 2 * h + 1
            &&& t.take(h) == s.take(h)
            &&& t[h] == '…'
            &&& t.skip(h + 1) == s.skip(s.len() - h)
        },
{
    reveal_strlit("…");
    if s.len() > n && n > 0 {
        let t = truncated(s, n);
        let h = (n / 2) as int;
        assert(t.take(h) =~= s.take(h));
        assert(t.skip(h + 1) =~= s.skip(s.len() - h));
    }
}

/// What is told of a leftover: whether it is half a frame, which is then shown, and how many bytes
/// it has.
pub proof fn law_leftover_is_told(text: Seq<char>)
    ensures
        stands_in("data:"@, text) && !ends_with(text, "\n"@) ==> leftover_report(text)
            == "流被上游切断：残留未终结的 data 残帧("@ + decimal(encode_utf8(text).len())
            + "B)已丢弃: "@ + truncated(trim(text), 100) + "…"@,
        !stands_in("data:"@, text) || ends_with(text, "\n"@) ==> leftover_report(text)
            == "流结束后缓冲区残留 "@ + decimal(encode_utf8(text).len())
            + "B（非 data 残帧，已丢弃）"@,
{
    law_contained_stands_somewhere(text, "data:"@);
}

/// Each line is sent with an empty line behind it.
pub proof fn law_line_is_sent_with_an_empty_one(lines: Seq<Seq<char>>, line: Seq<char>)
    ensures
        framed(lines.push(line)) == framed(lines) + line + "\n\n"@,
        framed(Seq::<Seq<char>>::empty()) == Seq::<char>::empty(),
{
    assert(lines.push(line).drop_last() =~= lines);
}

// ---------------------------------------------------------------------------
// What is sent on reads back
// ---------------------------------------------------------------------------

/// Whether a text is a line as the normalizer sees it: not empty, without a newline, and
/// without a carriage return at its end.
pub open spec fn plain_line(line: Seq<char>) -> bool {
    line.len() > 0 && one_line(line) && line.last() != '\r'
}

/// A run of lines that are given as text.
pub open spec fn replay(p: Progress, lines: Seq<Seq<char>>) -> Progress
    decreases lines.len(),
{
    if lines.len() == 0 {
        p
    } else {
        after_line(replay(p, lines.drop_last()), lines.last())
    }
}

proof fn lemma_two_replays(p: Progress, a: Seq<Seq<char>>, b: Seq<Seq<char>>)
    ensures
        replay(p, a + b) == replay(replay(p, a), b),
    decreases b.len(),
{
    if b.len() == 0 {
        assert(a + b =~= a);
    } else {
        lemma_two_replays(p, a, b.drop_last());
        assert((a + b).drop_last() =~= a + b.drop_last());
    }
}

proof fn lemma_trimmed_of_carriage_returns(s: Seq<char>)
    ensures
        trim_end_char(s, '\r').len() <= s.len(),
        trim_end_char(s, '\r') == s.take(trim_end_char(s, '\r').len() as int),
        trim_end_char(s, '\r').len() > 0 ==> trim_end_char(s, '\r').last() != '\r',
    decreases s.len(),
{
    if s.len() > 0 && s.last() == '\r' {
        lemma_trimmed_of_carriage_returns(s.drop_last());
        assert(trim_end_char(s, '\r') =~= s.take(trim_end_char(s, '\r').len() as int));
    } else {
        assert(s =~= s.take(s.len() as int));
    }
}

/// What goes out for a line has the same payload.
proof fn lemma_payload_is_stable(line: Seq<char>, done: bool)
    requires
        delivered(line, done) is Some,
    ensures
        payload(delivered(line, done)->0) == payload(line),
        delivered(delivered(line, done)->0, done) == delivered(line, done),
{
    reveal_strlit("data:");
    reveal_strlit("data: ");
    if let Some(data) = payload(line) {
        let out = "data: "@ + data;
        lemma_trim_start(line.skip(5));
        assert(out.take(5) =~= "data:"@);
        assert(out.skip(5).skip(1) =~= data);
        assert(out.skip(5)[0] == ' ');
        reveal_with_fuel(trim_start, 3);
        assert(trim_start(out.skip(5)) == data);
    }
}

/// What goes out for a line goes out unchanged the next time, and says the same.
proof fn lemma_delivered_is_stable(line: Seq<char>, done: bool)
    requires
        plain_line(line),
        delivered(line, done) is Some,
    ensures
        plain_line(delivered(line, done)->0),
        payload(delivered(line, done)->0) == payload(line),
        delivered(delivered(line, done)->0, done) == delivered(line, done),
{
    lemma_payload_is_stable(line, done);
    reveal_strlit("data:");
    reveal_strlit("data: ");
    if let Some(data) = payload(line) {
        let out = "data: "@ + data;
        lemma_trim_start(line.skip(5));
        assert forall|i: int| 0 <= i < out.len() implies out[i] != '\n' by {
            if i >= 6 {
                assert(data[i - 6] == line.skip(5)[line.skip(5).len() - data.len() + i - 6]);
            }
        }
        assert(out.last() == data.last());
        assert(data.last() == line.last());
    }
}

/// What goes out for a line, other than `[DONE]`, is normal. Normalizing it again hands it out as
/// it is, and changes nothing but the number of lines that were handed out.
pub proof fn law_normal_line_stays(n: NormalizerView, line: Seq<char>)
    requires
        delivered(line, n.done_seen) is Some,
        delivered(line, n.done_seen) != Some("data: [DONE]"@),
    ensures
        ({
            let r = delivered(line, n.done_seen)->0;
            let m = line_state(n, line);
            &&& delivered(r, m.done_seen) == Some(r)
            &&& line_state(m, r) == (NormalizerView { emitted: m.emitted + 1, ..m })
        }),
{
    lemma_done_line(line, n.done_seen);
    lemma_payload_is_stable(line, n.done_seen);
    let r = delivered(line, n.done_seen)->0;
    assert(delivered(r, n.done_seen) == Some(r));
    assert(reported_usage(r) == reported_usage(line));
}

/// The lines that a run hands out are plain, and a replay of them hands out the same.
proof fn lemma_run_replays(p: Progress, raw: Seq<Seq<u8>>)
    requires
        p.out.len() == 0,
        forall|i: int| #![trigger raw[i]] 0 <= i < raw.len() ==> closed_line(raw[i]),
    ensures
        ({
            let q = after_lines(p, raw);
            &&& forall|i: int| #![trigger q.out[i]] 0 <= i < q.out.len() ==> plain_line(q.out[i])
            &&& forall|dropped: nat, emitted: nat|
                #![trigger replay(Progress { dropped, emitted, ..p }, q.out)]
                replay((Progress { dropped, emitted, ..p }), q.out) == (Progress {
                    dropped,
                    emitted: emitted + q.out.len(),
                    ..q
                })
        }),
    decreases raw.len(),
{
    let q = after_lines(p, raw);
    if raw.len() > 0 {
        let before = raw.drop_last();
        lemma_run_replays(p, before);
        let r = after_lines(p, before);
        let bytes = raw.last();
        assert(closed_line(raw[raw.len() - 1]));
        let line = line_text(bytes);
        let text = decode_utf8(bytes);
        lemma_trimmed_of_carriage_returns(text);
        decode_utf8_encode_utf8(bytes);
        lemma_newlines_in_bytes(text);
        if line.len() > 0 && delivered(line, r.done) is Some {
            assert(plain_line(line));
            lemma_delivered_is_stable(line, r.done);
            let out = delivered(line, r.done)->0;
            assert(q.out == r.out.push(out));
            assert(q.out.drop_last() =~= r.out);
            assert forall|dropped: nat, emitted: nat| #[trigger]
                replay((Progress { dropped, emitted, ..p }), q.out) == (Progress {
                    dropped,
                    emitted: emitted + q.out.len(),
                    ..q
                }) by {
                let s = replay((Progress { dropped, emitted, ..p }), r.out);
                assert(s == (Progress { dropped, emitted: emitted + r.out.len(), ..r }));
            }
        } else {
            assert(q.out == r.out);
        }
    }
}

/// Whether bytes are what stands between two newlines of a text.
pub open spec fn closed_line(raw: Seq<u8>) -> bool {
    valid_utf8(raw) && forall|i: int| 0 <= i < raw.len() ==> raw[i] != 10
}

proof fn lemma_closed_lines_are_closed(b: Seq<u8>)
    requires
        valid_utf8(b),
    ensures
        forall|i: int|
            #![trigger closed_lines(b)[i]]
            0 <= i < closed_lines(b).len() ==> closed_line(closed_lines(b)[i]),
    decreases b.len(),
{
    lemma_newline_at(b);
    let i = newline_at(b);
    if i < b.len() {
        lemma_newline_is_boundary(b, i);
        lemma_closed_lines_are_closed(b.skip(i + 1));
        assert(closed_line(b.take(i)));
        let rest = closed_lines(b.skip(i + 1));
        assert forall|j: int|
            #![trigger closed_lines(b)[j]]
            0 <= j < closed_lines(b).len() implies closed_line(closed_lines(b)[j]) by {
            if j > 0 {
                assert(closed_lines(b)[j] == rest[j - 1]);
            }
        }
    }
}

/// The lines of what is sent on, and the empty lines between them.
proof fn lemma_framed_lines(p: Progress, lines: Seq<Seq<char>>)
    requires
        forall|i: int| #![trigger lines[i]] 0 <= i < lines.len() ==> plain_line(lines[i]),
    ensures
        open_tail(encode_utf8(framed(lines))) == Seq::<u8>::empty(),
        after_lines(p, closed_lines(encode_utf8(framed(lines)))) == replay(p, lines),
    decreases lines.len(),
{
    let b = encode_utf8(framed(lines));
    if lines.len() == 0 {
        assert(b =~= Seq::<u8>::empty());
    } else {
        let before = lines.drop_last();
        let line = lines.last();
        assert(plain_line(lines[lines.len() - 1]));
        lemma_framed_lines(p, before);
        let raw = encode_utf8(line);
        let ghost end = seq![10u8, 10u8];
        reveal_strlit("\n\n");
        assert(encode_utf8("\n\n"@) =~= end) by {
            is_ascii_chars_encode_utf8("\n\n"@);
        }
        let head = encode_utf8(framed(before));
        lemma_encode_concat(framed(before) + line, "\n\n"@);
        lemma_encode_concat(framed(before), line);
        let last = raw + end;
        assert(b =~= head + last);
        lemma_lines_of_concat(head, last);
        assert(open_tail(head) + last =~= last);
        lemma_newlines_in_bytes(line);
        lemma_newline_at_unique(last, raw.len() as int);
        assert(last.take(raw.len() as int) =~= raw);
        let nl = last.skip(raw.len() as int + 1);
        assert(nl =~= seq![10u8]);
        lemma_newline_at_unique(nl, 0);
        assert(nl.take(0) =~= Seq::<u8>::empty());
        assert(nl.skip(1) =~= Seq::<u8>::empty());
        assert(closed_lines(nl.skip(1)) =~= Seq::<Seq<u8>>::empty());
        assert(closed_lines(nl) =~= seq![Seq::<u8>::empty()]);
        assert(closed_lines(last) =~= seq![raw, Seq::<u8>::empty()]);
        assert(open_tail(nl.skip(1)) =~= Seq::<u8>::empty());
        assert(open_tail(nl) == open_tail(nl.skip(1)));
        assert(open_tail(last) == open_tail(nl));
        let all = closed_lines(head) + seq![raw, Seq::<u8>::empty()];
        assert(all.drop_last().drop_last() =~= closed_lines(head));
        assert(all.drop_last().last() == raw);
        assert(all.last() == Seq::<u8>::empty());
        encode_utf8_decode_utf8(line);
        assert(line_text(raw) == line);
        assert(line_text(Seq::<u8>::empty()) =~= Seq::<char>::empty());
        reveal_with_fuel(after_lines, 3);
    }
}

/// The normalizer as another one finds the stream that this one sends on.
pub open spec fn downstream(n: NormalizerView) -> NormalizerView {
    NormalizerView { buffer: seq![], dropped: 0, emitted: 0, rejoined: 0, ..n }
}

/// The lines of a list of chunks are plain, and a replay of them hands out the same.
proof fn lemma_stream_replays(n: NormalizerView, chunks: Seq<Seq<u8>>, emitted: nat)
    ensures
        ({
            let lines = all_lines(n, chunks);
            let m = state_after(n, chunks);
            &&& forall|i: int| #![trigger lines[i]] 0 <= i < lines.len() ==> plain_line(lines[i])
            &&& replay((Progress { dropped: 0, emitted, ..start(n) }), lines) == (Progress {
                out: lines,
                done: m.done_seen,
                dropped: 0,
                emitted: emitted + lines.len(),
                usage: m.usage_tokens,
            })
        }),
    decreases chunks.len(),
{
    let lines = all_lines(n, chunks);
    let p = Progress { dropped: 0, emitted, ..start(n) };
    if chunks.len() == 0 {
        assert(lines =~= Seq::<Seq<char>>::empty());
    } else {
        let b = n.buffer + chunks[0];
        let n1 = push_state(n, chunks[0]);
        let first = push_lines(n, chunks[0]);
        let more = all_lines(n1, chunks.skip(1));
        lemma_settled_is_valid(b);
        lemma_closed_lines_are_closed(settled(b));
        lemma_run_replays(start(n), taken(b));
        lemma_stream_replays(n1, chunks.skip(1), emitted + first.len());
        assert forall|i: int| #![trigger lines[i]] 0 <= i < lines.len() implies plain_line(
            lines[i],
        ) by {
            if i < first.len() {
                assert(lines[i] == first[i]);
            } else {
                assert(lines[i] == more[i - first.len()]);
            }
        }
        lemma_two_replays(p, first, more);
        let q = replay(p, first);
        let p1 = Progress { dropped: 0, emitted: emitted + first.len(), ..start(n1) };
        assert(q == (Progress { out: first, ..p1 }));
        lemma_replay_log(p1, first, more);
        assert(first + p1.out =~= first);
    }
}

/// What was handed out before changes nothing of a replay.
proof fn lemma_replay_log(p: Progress, log: Seq<Seq<char>>, lines: Seq<Seq<char>>)
    ensures
        replay((Progress { out: log + p.out, ..p }), lines) == (Progress {
            out: log + replay(p, lines).out,
            ..replay(p, lines)
        }),
    decreases lines.len(),
{
    if lines.len() > 0 {
        lemma_replay_log(p, log, lines.drop_last());
        let q = replay(p, lines.drop_last());
        assert forall|text: Seq<char>| #[trigger] (log + q.out).push(text) == log + q.out.push(
            text,
        ) by {
            assert((log + q.out).push(text) =~= log + q.out.push(text));
        }
    }
}

/// A normalizer that is fed plain lines, framed, from an empty buffer replays them.
proof fn lemma_framed_push(n: NormalizerView, lines: Seq<Seq<char>>)
    requires
        n.buffer.len() == 0,
        forall|i: int| #![trigger lines[i]] 0 <= i < lines.len() ==> plain_line(lines[i]),
    ensures
        ({
            let p = replay(start(n), lines);
            let sent = encode_utf8(framed(lines));
            &&& push_lines(n, sent) == p.out
            &&& push_state(n, sent) == (NormalizerView {
                buffer: seq![],
                done_seen: p.done,
                dropped: p.dropped,
                emitted: p.emitted,
                rejoined: n.rejoined,
                usage_tokens: p.usage,
            })
        }),
{
    let sent = encode_utf8(framed(lines));
    let b = n.buffer + sent;
    assert(b =~= sent);
    encode_utf8_valid_utf8(framed(lines));
    lemma_valid_is_settled(b);
    lemma_framed_lines(start(n), lines);
    lemma_valid_up_to(open_tail(b));
    assert(kept(b) =~= Seq::<u8>::empty());
}

/// What the normalizer sends on is already normal: a second normalizer hands out the same
/// lines, drops none of them, and learns the same of the end of the stream and of its usage.
pub proof fn law_sent_stream_reads_back(n: NormalizerView, chunks: Seq<Seq<u8>>)
    ensures
        ({
            let lines = all_lines(n, chunks);
            let sent = encode_utf8(framed(lines));
            &&& push_lines(downstream(n), sent) == lines
            &&& push_state(downstream(n), sent) == (NormalizerView {
                emitted: lines.len(),
                ..downstream(state_after(n, chunks))
            })
        }),
{
    lemma_stream_replays(n, chunks, 0);
    lemma_framed_push(downstream(n), all_lines(n, chunks));
    assert(start(downstream(n)) == (Progress { dropped: 0, emitted: 0, ..start(n) }));
}

/// The error event on one line.
pub open spec fn error_line(message: Seq<char>) -> Seq<char> {
    "data: {\"error\":{\"message\":"@ + json_literal(message)
        + ",\"proxy\":\"piglmbridger\",\"type\":\"proxy_upstream_error\"}}"@
}

/// A client that reads the stream line by line reads an error frame as two lines, the error
/// event and `[DONE]`, whatever the message holds.
pub proof fn law_error_frame_is_two_lines(message: Seq<char>)
    ensures
        push_lines(fresh(), encode_utf8(error_frame_text(message))) == seq![
            "data: {\"error\":{\"message\":"@ + json_literal(message)
                + ",\"proxy\":\"piglmbridger\",\"type\":\"proxy_upstream_error\"}}"@,
            "data: [DONE]"@,
        ],
        push_state(fresh(), encode_utf8(error_frame_text(message))).done_seen,
        push_state(fresh(), encode_utf8(error_frame_text(message))).buffer.len() == 0,
{
    let head = "data: {\"error\":{\"message\":"@;
    let end = ",\"proxy\":\"piglmbridger\",\"type\":\"proxy_upstream_error\"}}"@;
    let close =
        ",\"proxy\":\"piglmbridger\",\"type\":\"proxy_upstream_error\"}}\n\ndata: [DONE]\n\n"@;
    let lit = json_literal(message);
    let line = error_line(message);
    let done = "data: [DONE]"@;
    reveal_strlit("data: {\"error\":{\"message\":");
    reveal_strlit(",\"proxy\":\"piglmbridger\",\"type\":\"proxy_upstream_error\"}}");
    reveal_strlit(
        ",\"proxy\":\"piglmbridger\",\"type\":\"proxy_upstream_error\"}}\n\ndata: [DONE]\n\n",
    );
    reveal_strlit("data: [DONE]");
    reveal_strlit("[DONE]");
    reveal_strlit("data:");
    reveal_strlit("data: ");
    reveal_strlit("\n\n");
    let lines = seq![line, done];
    assert(lines.drop_last() =~= seq![line]);
    assert(lines.drop_last().drop_last() =~= Seq::<Seq<char>>::empty());
    reveal_with_fuel(framed, 3);
    assert(close =~= end + "\n\n"@ + done + "\n\n"@);
    assert(framed(lines) =~= error_frame_text(message));
    lemma_literal_is_printable(message);
    assert forall|i: int| 0 <= i < line.len() implies line[i] != '\n' by {
        if i < head.len() {
            assert(line[i] == head[i]);
        } else if i < head.len() + lit.len() {
            assert(line[i] == lit[i - head.len()]);
        } else {
            assert(line[i] == end[i - head.len() - lit.len()]);
        }
    }
    assert(line.last() == end.last());
    assert(plain_line(line));
    assert(plain_line(done));
    lemma_framed_push(fresh(), lines);
    let p0 = start(fresh());
    assert(line.take(5) =~= "data:"@);
    let rest = line.skip(5);
    assert(rest[0] == ' ' && rest[1] == '{');
    assert(rest.skip(1)[0] == '{');
    reveal_with_fuel(trim_start, 3);
    assert(payload(line) == Some(rest.skip(1)));
    assert("data: "@ + rest.skip(1) =~= line);
    assert(rest.skip(1) != "[DONE]"@);
    assert(delivered(line, false) == Some(line));
    assert(done.take(5) =~= "data:"@);
    assert(done.skip(5).skip(1) =~= "[DONE]"@);
    assert(payload(done) == Some("[DONE]"@));
    assert("data: "@ + "[DONE]"@ =~= done);
    reveal_with_fuel(replay, 3);
    let p1 = replay(p0, seq![line]);
    assert(seq![line].drop_last() =~= Seq::<Seq<char>>::empty());
    assert(p1 == after_line(p0, line));
    assert(replay(p0, lines) == after_line(p1, done));
    assert(replay(p0, lines).out =~= lines);
}

} // verus!
