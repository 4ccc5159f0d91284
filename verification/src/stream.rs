//! Normalising a server-sent event stream that arrives in arbitrary pieces.
//!
//! Upstream may cut its byte stream anywhere: in the middle of a character, of a line, of a
//! frame. The normalizer buffers what is incomplete and hands out whole lines only. Repeated
//! `[DONE]` frames and empty frames are dropped, and the token usage is picked up on the way.
use crate::decimal::{decimal, decimal_text};
use crate::json::{
    doc_at, doc_text, is_doc, is_document, json_at, json_literal, lookup, quoted, Doc, Json,
    JsonView,
};
use crate::stream_laws::{is_blank, is_payload, law_every_frame_goes_out, line_ends};
use crate::text::{
    chars_of, contains, contains_text, ends_with, ends_with_text, law_contained_stands_somewhere,
    lemma_find, opt_string, same_chars, stands_in, starts_with, starts_with_chars, text_of, trim,
    trim_end_char, trim_end_char_of, trim_start, trim_start_chars, trim_text,
};
use crate::utf8::{
    lemma_encode_concat, lemma_newlines_in_bytes, lemma_settled_is_valid, lemma_valid_is_settled,
    lemma_valid_up_to, mend, mended, occurs, one_line, partial, read_lossy, read_utf8, replacement,
    settle, settled, text_in,
};
use vstd::prelude::*;
use vstd::utf8::*;

verus! {

// ---------------------------------------------------------------------------
// Lines of bytes
// ---------------------------------------------------------------------------

/// The position of the first newline byte, or the length.
pub open spec fn newline_at(b: Seq<u8>) -> int
    decreases b.len(),
{
    if b.len() == 0 || b[0] == 10 {
        0
    } else {
        1 + newline_at(b.skip(1))
    }
}

/// The lines of `b` that a newline closes, without their newlines.
pub open spec fn closed_lines(b: Seq<u8>) -> Seq<Seq<u8>>
    decreases b.len(),
    via closed_lines_decreases
{
    let i = newline_at(b);
    if i >= b.len() {
        seq![]
    } else {
        seq![b.take(i)] + closed_lines(b.skip(i + 1))
    }
}

#[via_fn]
proof fn closed_lines_decreases(b: Seq<u8>) {
    lemma_newline_at(b);
}

/// What follows the last newline of `b`.
pub open spec fn open_tail(b: Seq<u8>) -> Seq<u8>
    decreases b.len(),
    via open_tail_decreases
{
    let i = newline_at(b);
    if i >= b.len() {
        b
    } else {
        open_tail(b.skip(i + 1))
    }
}

#[via_fn]
proof fn open_tail_decreases(b: Seq<u8>) {
    lemma_newline_at(b);
}

pub proof fn lemma_newline_at(b: Seq<u8>)
    ensures
        0 <= newline_at(b) <= b.len(),
        forall|j: int| 0 <= j < newline_at(b) ==> b[j] != 10,
        newline_at(b) < b.len() ==> b[newline_at(b)] == 10,
    decreases b.len(),
{
    if b.len() > 0 && b[0] != 10 {
        lemma_newline_at(b.skip(1));
        assert forall|j: int| 0 <= j < newline_at(b) implies b[j] != 10 by {
            if j > 0 {
                assert(b.skip(1)[j - 1] == b[j]);
            }
        }
    }
}

pub proof fn lemma_newline_at_unique(b: Seq<u8>, i: int)
    requires
        0 <= i <= b.len(),
        forall|j: int| 0 <= j < i ==> b[j] != 10,
        i < b.len() ==> b[i] == 10,
    ensures
        newline_at(b) == i,
{
    lemma_newline_at(b);
    let k = newline_at(b);
    if k < i {
        assert(b[k] != 10);
    } else if i < k {
        assert(b[i] != 10);
    }
}

/// Splitting off the closed lines of a first part changes neither the lines nor the tail.
pub proof fn lemma_lines_of_concat(a: Seq<u8>, b: Seq<u8>)
    ensures
        closed_lines(a + b) == closed_lines(a) + closed_lines(open_tail(a) + b),
        open_tail(a + b) == open_tail(open_tail(a) + b),
    decreases a.len(),
{
    lemma_newline_at(a);
    let i = newline_at(a);
    if i >= a.len() {
        assert(closed_lines(a) + closed_lines(a + b) =~= closed_lines(a + b));
    } else {
        let c = a + b;
        lemma_newline_at_unique(c, i);
        assert(c.take(i) =~= a.take(i));
        assert(c.skip(i + 1) =~= a.skip(i + 1) + b);
        lemma_lines_of_concat(a.skip(i + 1), b);
        assert(closed_lines(a + b) =~= closed_lines(a) + closed_lines(open_tail(a) + b));
    }
}

pub proof fn lemma_no_newline(b: Seq<u8>)
    requires
        forall|j: int| 0 <= j < b.len() ==> b[j] != 10,
    ensures
        closed_lines(b) == Seq::<Seq<u8>>::empty(),
        open_tail(b) == b,
{
    lemma_newline_at_unique(b, b.len() as int);
}

pub proof fn lemma_open_tail(b: Seq<u8>)
    ensures
        open_tail(b).len() <= b.len(),
        open_tail(b) == b.skip(b.len() - open_tail(b).len()),
        forall|j: int| 0 <= j < open_tail(b).len() ==> open_tail(b)[j] != 10,
        closed_lines(b).len() + open_tail(b).len() <= b.len(),
    decreases b.len(),
{
    lemma_newline_at(b);
    let i = newline_at(b);
    if i < b.len() {
        lemma_open_tail(b.skip(i + 1));
        assert(open_tail(b) =~= b.skip(b.len() - open_tail(b).len()));
    } else {
        assert(b =~= b.skip(0));
    }
}

pub proof fn lemma_nothing_follows_the_last_newline(b: Seq<u8>)
    requires
        b.len() > 0,
        b.last() == 10,
    ensures
        open_tail(b).len() == 0,
{
    lemma_open_tail(b);
    let t = open_tail(b);
    if t.len() > 0 {
        assert(t[t.len() - 1] == b[b.len() - 1]);
    }
}

/// Where the open tail begins.
fn open_from(b: &[u8]) -> (r: usize)
    ensures
        r <= b@.len(),
        b@.skip(r as int) == open_tail(b@),
{
    let n = b.len();
    let mut i: usize = n;
    while i > 0 && b[i - 1] != 10
        invariant
            i <= n,
            n == b@.len(),
            forall|j: int| i <= j < n ==> b@[j] != 10,
        decreases i,
    {
        i -= 1;
    }
    proof {
        let front = b@.take(i as int);
        let tail = b@.skip(i as int);
        assert(b@ =~= front + tail);
        lemma_lines_of_concat(front, tail);
        if i > 0 {
            lemma_nothing_follows_the_last_newline(front);
        } else {
            lemma_newline_at(front);
        }
        assert(open_tail(front) + tail =~= tail);
        lemma_no_newline(tail);
    }
    i
}

/// Cutting a well-formed run at a newline leaves two well-formed runs.
pub proof fn lemma_newline_is_boundary(b: Seq<u8>, i: int)
    requires
        valid_utf8(b),
        0 <= i < b.len(),
        b[i] == 10,
    ensures
        valid_utf8(b.take(i)),
        valid_utf8(b.skip(i + 1)),
{
    assert(is_leading_byte_width_1(b[i]));
    is_char_boundary_iff_is_leading_byte(b, i);
    valid_utf8_split(b, i);
    let rest = b.subrange(i, b.len() as int);
    assert(rest[0] == 10);
    assert(pop_first_scalar(rest) =~= b.skip(i + 1));
}

// ---------------------------------------------------------------------------
// What one chunk does to the buffer
// ---------------------------------------------------------------------------

/// The lines that are taken out of the buffer: those that a newline closes.
pub open spec fn taken(b: Seq<u8>) -> Seq<Seq<u8>> {
    closed_lines(settled(b))
}

/// The buffer after its closed lines were taken out: what follows the last newline.
pub open spec fn kept(b: Seq<u8>) -> Seq<u8> {
    mended(open_tail(b))
}

/// How many newline bytes there are.
spec fn newlines(b: Seq<u8>) -> nat
    decreases b.len(),
{
    if b.len() == 0 {
        0
    } else {
        newlines(b.skip(1)) + if b[0] == 10 {
            1nat
        } else {
            0nat
        }
    }
}

proof fn lemma_each_newline_closes_a_line(b: Seq<u8>)
    ensures
        closed_lines(b).len() == newlines(b),
        newlines(b) <= b.len(),
    decreases b.len(),
{
    lemma_newline_at(b);
    if b.len() > 0 {
        let rest = b.skip(1);
        lemma_newline_at(rest);
        lemma_each_newline_closes_a_line(rest);
        if b[0] != 10 {
            let i = newline_at(rest);
            assert(newline_at(b) == 1 + i);
            if i < rest.len() {
                assert(b.skip(1 + i + 1) =~= rest.skip(i + 1));
            }
        }
    }
}

proof fn lemma_newlines_of_concat(a: Seq<u8>, b: Seq<u8>)
    ensures
        newlines(a + b) == newlines(a) + newlines(b),
    decreases a.len(),
{
    if a.len() == 0 {
        assert(a + b =~= b);
    } else {
        lemma_newlines_of_concat(a.skip(1), b);
        assert((a + b).skip(1) =~= a.skip(1) + b);
    }
}

/// There are no more lines than bytes, also where bytes are replaced.
proof fn lemma_lines_are_bounded(b: Seq<u8>)
    ensures
        newlines(settled(b)) <= b.len(),
    decreases b.len(),
{
    if b.len() == 0 || partial(b) {
    } else if valid_first_scalar(b) {
        let first = take_first_scalar(b);
        lemma_each_newline_closes_a_line(first);
        lemma_lines_are_bounded(pop_first_scalar(b));
        lemma_newlines_of_concat(first, settled(pop_first_scalar(b)));
    } else {
        lemma_lines_are_bounded(b.skip(1));
        lemma_newlines_of_concat(replacement(), settled(b.skip(1)));
        reveal_with_fuel(newlines, 4);
    }
}

// ---------------------------------------------------------------------------
// What becomes of one line
// ---------------------------------------------------------------------------

/// The text of a line, without the carriage returns at its end.
pub open spec fn line_text(raw: Seq<u8>) -> Seq<char> {
    trim_end_char(decode_utf8(raw), '\r')
}

/// The payload of a `data:` line.
pub open spec fn payload(line: Seq<char>) -> Option<Seq<char>> {
    if starts_with(line, "data:"@) {
        Some(trim_start(line.skip(5)))
    } else {
        None
    }
}

/// What is handed out for a line, given whether `[DONE]` was handed out before.
pub open spec fn delivered(line: Seq<char>, done: bool) -> Option<Seq<char>> {
    match payload(line) {
        None => Some(line),
        Some(data) => if data.len() == 0 || (data == "[DONE]"@ && done) {
            None
        } else {
            Some("data: "@ + data)
        },
    }
}

/// Whether a line closes the stream.
pub open spec fn is_done(line: Seq<char>) -> bool {
    payload(line) == Some("[DONE]"@)
}

/// The token total that a frame reports, if it reports one.
pub open spec fn reported_usage(line: Seq<char>) -> Option<u64> {
    match payload(line) {
        Some(data) => if data != "[DONE]"@ && contains(data, "\"usage\""@) {
            total_tokens(json_at(encode_utf8(data), "usage"@, Some("total_tokens"@)))
        } else {
            None
        },
        None => None,
    }
}

/// The token total in the result of a lookup.
pub open spec fn total_tokens(found: JsonView) -> Option<u64> {
    match found {
        JsonView::Unsigned(n) => Some(n),
        _ => None,
    }
}

/// How far a run of lines has come.
#[verifier::ext_equal]
pub struct Progress {
    /// What was handed out.
    pub out: Seq<Seq<char>>,
    /// Whether `[DONE]` was handed out.
    pub done: bool,
    /// How many frames were dropped.
    pub dropped: nat,
    /// How many lines were handed out, counted from the start of the stream.
    pub emitted: nat,
    /// The last token total that was reported.
    pub usage: Option<u64>,
}

/// The progress after one more line.
pub open spec fn after_line(p: Progress, line: Seq<char>) -> Progress {
    if line.len() == 0 {
        p
    } else {
        let done = p.done || is_done(line);
        match delivered(line, p.done) {
            None => Progress { dropped: p.dropped + 1, ..p },
            Some(text) => Progress {
                out: p.out.push(text),
                done,
                emitted: p.emitted + 1,
                usage: match reported_usage(line) {
                    Some(n) => Some(n),
                    None => p.usage,
                },
                ..p
            },
        }
    }
}

/// The progress after a run of lines.
pub open spec fn after_lines(p: Progress, raw: Seq<Seq<u8>>) -> Progress
    decreases raw.len(),
{
    if raw.len() == 0 {
        p
    } else {
        after_line(after_lines(p, raw.drop_last()), line_text(raw.last()))
    }
}

/// Whether the first of the lines goes out.
pub open spec fn first_goes_out(raw: Seq<Seq<u8>>, done: bool) -> bool {
    raw.len() > 0 && line_text(raw[0]).len() > 0 && delivered(line_text(raw[0]), done) is Some
}

/// Whether a document can be the payload of a frame that tells of a usage: JSON that does not
/// begin with white space, and in which the word is written out.
pub open spec fn is_usage_frame(d: Doc) -> bool {
    let text = doc_text(d);
    &&& is_doc(d, 127)
    &&& text.len() > 0 && ' ' < text[0] < '\u{7f}'
    &&& stands_in("\"usage\""@, text)
}

/// The usage after a frame: the total under `usage` and `total_tokens`, where it is a number, else
/// what was known before.
pub open spec fn usage_after(d: Doc, before: Option<u64>) -> Option<u64> {
    match doc_at(d, "usage"@, Some("total_tokens"@)) {
        JsonView::Unsigned(n) => Some(n),
        _ => before,
    }
}

/// Whether the usage of a line is that of the document in it.
pub open spec fn usage_is_read(line: Seq<char>) -> bool {
    forall|d: Doc|
        line == "data: "@ + #[trigger] doc_text(d) && is_usage_frame(d) ==> (
        match reported_usage(line) {
            Some(n) => usage_after(d, None) == Some(n),
            None => usage_after(d, None) is None,
        })
}

/// The payload of a frame that tells of a usage is the document.
proof fn lemma_usage_frame(line: Seq<char>, d: Doc)
    requires
        line == "data: "@ + doc_text(d),
        is_usage_frame(d),
    ensures
        payload(line) == Some(doc_text(d)),
        doc_text(d) != "[DONE]"@,
        contains(doc_text(d), "\"usage\""@),
        delivered(line, true) is Some,
        delivered(line, false) is Some,
{
    let text = doc_text(d);
    reveal_strlit("data:");
    reveal_strlit("data: ");
    reveal_strlit("[DONE]");
    reveal_strlit("\"usage\"");
    law_contained_stands_somewhere(text, "\"usage\""@);
    assert(line.take(5) =~= "data:"@);
    let rest = line.skip(5);
    assert(rest[0] == ' ');
    assert(rest.skip(1) =~= text);
    reveal_with_fuel(trim_start, 3);
}

/// A text on one line, closed by a newline, is taken as it is, and nothing is kept.
pub proof fn lemma_one_closed_line(b: Seq<u8>, line: Seq<char>)
    requires
        one_line(line),
        b == encode_utf8(line + "\n"@),
    ensures
        taken(b) == seq![encode_utf8(line)],
        line_text(encode_utf8(line)) == trim_end_char(line, '\r'),
        kept(b).len() == 0,
{
    reveal_strlit("\n");
    let raw = encode_utf8(line);
    is_ascii_chars_encode_utf8("\n"@);
    assert(encode_utf8("\n"@) =~= seq![10u8]);
    lemma_encode_concat(line, "\n"@);
    encode_utf8_valid_utf8(line + "\n"@);
    lemma_valid_is_settled(b);
    lemma_newlines_in_bytes(line);
    assert(b =~= raw + seq![10u8]);
    lemma_newline_at_unique(b, raw.len() as int);
    assert(b.take(raw.len() as int) =~= raw);
    let nothing = b.skip(raw.len() as int + 1);
    assert(nothing =~= Seq::<u8>::empty());
    assert(closed_lines(nothing) =~= Seq::<Seq<u8>>::empty());
    assert(closed_lines(b) =~= seq![raw]);
    encode_utf8_decode_utf8(line);
    lemma_nothing_follows_the_last_newline(b);
    lemma_valid_up_to(open_tail(b));
}

// ---------------------------------------------------------------------------
// The normalizer
// ---------------------------------------------------------------------------

/// Takes the raw bytes of a stream chunk by chunk and hands out its whole lines.
pub struct SseNormalizer {
    /// What has arrived and is not complete: the start of a line.
    pub buffer: Vec<u8>,
    /// Whether `[DONE]` was handed out, the mark of a stream that ended well.
    pub done_seen: bool,
    /// How many frames were dropped: empty ones, repeated `[DONE]`s, truncated ones.
    pub dropped: u64,
    /// How many lines were handed out.
    pub emitted: u64,
    /// How many lines could be handed out only after joining pieces of several chunks.
    pub rejoined: u64,
    /// The `total_tokens` of the last frame that reported a usage.
    pub usage_tokens: Option<u64>,
}

/// The model of [`SseNormalizer`].
#[verifier::ext_equal]
pub struct NormalizerView {
    pub buffer: Seq<u8>,
    pub done_seen: bool,
    pub dropped: nat,
    pub emitted: nat,
    pub rejoined: nat,
    pub usage_tokens: Option<u64>,
}

impl View for SseNormalizer {
    type V = NormalizerView;

    open spec fn view(&self) -> NormalizerView {
        NormalizerView {
            buffer: self.buffer@,
            done_seen: self.done_seen,
            dropped: self.dropped as nat,
            emitted: self.emitted as nat,
            rejoined: self.rejoined as nat,
            usage_tokens: self.usage_tokens,
        }
    }
}

/// The normalizer at the start of a stream.
pub open spec fn fresh() -> NormalizerView {
    NormalizerView {
        buffer: seq![],
        done_seen: false,
        dropped: 0,
        emitted: 0,
        rejoined: 0,
        usage_tokens: None,
    }
}

/// The progress with which a chunk begins.
pub open spec fn start(n: NormalizerView) -> Progress {
    Progress {
        out: seq![],
        done: n.done_seen,
        dropped: n.dropped,
        emitted: n.emitted,
        usage: n.usage_tokens,
    }
}

/// The progress with which a chunk ends.
pub open spec fn finish(n: NormalizerView, chunk: Seq<u8>) -> Progress {
    after_lines(start(n), taken(n.buffer + chunk))
}

/// The lines that a chunk brings out.
pub open spec fn push_lines(n: NormalizerView, chunk: Seq<u8>) -> Seq<Seq<char>> {
    finish(n, chunk).out
}

/// The normalizer after a chunk.
pub open spec fn push_state(n: NormalizerView, chunk: Seq<u8>) -> NormalizerView {
    let p = finish(n, chunk);
    NormalizerView {
        buffer: kept(n.buffer + chunk),
        done_seen: p.done,
        dropped: p.dropped,
        emitted: p.emitted,
        rejoined: n.rejoined + if n.buffer.len() > 0 && first_goes_out(
            taken(n.buffer + chunk),
            n.done_seen,
        ) {
            1nat
        } else {
            0nat
        },
        usage_tokens: p.usage,
    }
}

/// The normalizer after one line.
pub open spec fn line_state(n: NormalizerView, line: Seq<char>) -> NormalizerView {
    if delivered(line, n.done_seen) is None {
        NormalizerView { dropped: n.dropped + 1, ..n }
    } else {
        NormalizerView {
            emitted: n.emitted + 1,
            done_seen: n.done_seen || is_done(line),
            usage_tokens: match reported_usage(line) {
                Some(t) => Some(t),
                None => n.usage_tokens,
            },
            ..n
        }
    }
}

/// Whether the counters can take a chunk: there are no more lines than bytes, and no more bytes
/// than memory can hold.
pub open spec fn can_count(n: NormalizerView, chunk: Seq<u8>) -> bool {
    let size = n.buffer.len() + chunk.len();
    size <= usize::MAX ==> n.emitted + size <= u64::MAX && n.dropped + size <= u64::MAX
        && n.rejoined < u64::MAX
}

impl SseNormalizer {
    /// A normalizer at the start of a stream.
    pub fn new() -> (r: Self)
        ensures
            r@ == fresh(),
    {
        let r = SseNormalizer {
            buffer: Vec::new(),
            done_seen: false,
            dropped: 0,
            emitted: 0,
            rejoined: 0,
            usage_tokens: None,
        };
        assert(r@ =~= fresh());
        r
    }

    /// Takes in one chunk of the stream and returns the lines that it completes, without their
    /// newlines. Only what a newline closes is complete; the rest stays in the buffer.
    pub fn push(&mut self, chunk: &[u8]) -> (lines: Vec<String>)
        requires
            can_count(old(self)@, chunk@),
        ensures
            lines.deep_view() == push_lines(old(self)@, chunk@),
            final(self)@ == push_state(old(self)@, chunk@),
            forall|d: Doc|
                old(self)@.buffer + chunk@ == encode_utf8("data: "@ + #[trigger] doc_text(d) + "\n"@)
                    && one_line(doc_text(d)) && doc_text(d).last() != '\r' && is_usage_frame(d)
                    ==> final(self).usage_tokens == usage_after(d, old(self).usage_tokens),
            forall|w: Seq<char>, s: Seq<char>, k: nat|
                old(self)@.buffer + chunk@ == #[trigger] encode_utf8(
                    "data:"@ + w + s + line_ends(k) + "\n"@,
                ) && is_blank(w) && is_payload(s) && s != "[DONE]"@ ==> lines.deep_view()
                    == seq!["data: "@ + s] && final(self).dropped == old(self).dropped
                    && final(self).emitted == old(self).emitted + 1,
    {
        let ghost before = self@;
        let continuing = self.buffer.len() > 0;
        let mut buf: Vec<u8> = Vec::new();
        std::mem::swap(&mut buf, &mut self.buffer);
        buf.extend_from_slice(chunk);
        let ghost b = before.buffer + chunk@;
        assert(buf@ =~= b);
        assert(b.len() == buf.len());
        let head = settle(buf.as_slice());
        let end = head.len();
        let mut lines: Vec<String> = Vec::new();
        let mut from: usize = 0;
        let ghost mut raw: Seq<Seq<u8>> = seq![];
        let ghost h = settled(b);
        proof {
            lemma_settled_is_valid(b);
            lemma_each_newline_closes_a_line(h);
            lemma_lines_are_bounded(b);
            assert(h.skip(0) =~= h);
            assert(raw + closed_lines(h) =~= closed_lines(h));
            assert(lines.deep_view() =~= Seq::<Seq<char>>::empty());
        }
        loop
            invariant
                from <= end,
                end == head@.len(),
                head@ == h,
                closed_lines(h).len() <= b.len(),
                valid_utf8(h.skip(from as int)),
                raw + closed_lines(h.skip(from as int)) == closed_lines(h),
                raw.len() == 0 <==> from == 0,
                lines.deep_view() == after_lines(start(before), raw).out,
                self.done_seen == after_lines(start(before), raw).done,
                self.dropped == after_lines(start(before), raw).dropped,
                self.emitted == after_lines(start(before), raw).emitted,
                self.usage_tokens == after_lines(start(before), raw).usage,
                self.dropped <= before.dropped + raw.len(),
                self.emitted <= before.emitted + raw.len(),
                before.emitted + b.len() <= u64::MAX,
                before.dropped + b.len() <= u64::MAX,
                before.rejoined < u64::MAX,
                self.rejoined == before.rejoined + if raw.len() > 0 && continuing && first_goes_out(
                    raw,
                    before.done_seen,
                ) {
                    1nat
                } else {
                    0nat
                },
                forall|i: int| 0 <= i < raw.len() ==> usage_is_read(line_text(#[trigger] raw[i])),
            ensures
                raw == closed_lines(h),
                forall|i: int| 0 <= i < raw.len() ==> usage_is_read(line_text(#[trigger] raw[i])),
                lines.deep_view() == after_lines(start(before), raw).out,
                self.done_seen == after_lines(start(before), raw).done,
                self.dropped == after_lines(start(before), raw).dropped,
                self.emitted == after_lines(start(before), raw).emitted,
                self.usage_tokens == after_lines(start(before), raw).usage,
                self.rejoined == before.rejoined + if raw.len() > 0 && continuing && first_goes_out(
                    raw,
                    before.done_seen,
                ) {
                    1nat
                } else {
                    0nat
                },
            decreases end - from,
        {
            let ghost rest = h.skip(from as int);
            let mut i = from;
            while i < end && head[i] != 10
                invariant
                    from <= i <= end,
                    end == head@.len(),
                    head@ == h,
                    forall|j: int| from <= j < i ==> h[j] != 10,
                decreases end - i,
            {
                i += 1;
            }
            proof {
                assert forall|j: int| 0 <= j < i - from implies rest[j] != 10 by {
                    assert(rest[j] == h[from + j]);
                }
                lemma_newline_at_unique(rest, i - from);
            }
            if i >= end {
                assert(raw + closed_lines(rest) =~= raw);
                break;
            }
            let bytes = vstd::slice::slice_subrange(head.as_slice(), from, i);
            proof {
                assert(bytes@ =~= rest.take(i - from));
                lemma_newline_is_boundary(rest, i - from);
                assert(rest.skip(i - from + 1) =~= h.skip(i + 1));
                assert(raw + (seq![bytes@] + closed_lines(h.skip(i + 1))) =~= raw.push(bytes@)
                    + closed_lines(h.skip(i + 1)));
                assert(raw.push(bytes@).drop_last() =~= raw);
                assert(raw.len() > 0 ==> raw.push(bytes@)[0] == raw[0]);
            }
            let count = lines.len();
            let ghost already = lines.deep_view();
            self.take_line(bytes, &mut lines);
            if from == 0 && continuing && lines.len() > count {
                self.rejoined += 1;
            }
            proof {
                raw = raw.push(bytes@);
                assert(lines.deep_view().len() == lines@.len());
                assert(already.len() == count);
            }
            from = i + 1;
        }
        let open = open_from(buf.as_slice());
        let tail = vstd::slice::slice_subrange(buf.as_slice(), open, buf.len());
        assert(tail@ =~= open_tail(b));
        self.buffer = mend(tail);
        assert(self@ =~= push_state(before, chunk@));
        proof {
            assert forall|w: Seq<char>, s: Seq<char>, k: nat|
                b == #[trigger] encode_utf8("data:"@ + w + s + line_ends(k) + "\n"@) && is_blank(w)
                    && is_payload(s) && s != "[DONE]"@ implies push_lines(before, chunk@) == seq![
                "data: "@ + s,
            ] && push_state(before, chunk@).dropped == before.dropped && push_state(
                before,
                chunk@,
            ).emitted == before.emitted + 1 by {
                law_every_frame_goes_out(before, chunk@, w, s, k);
            }
            assert forall|d: Doc|
                b == encode_utf8("data: "@ + #[trigger] doc_text(d) + "\n"@) && one_line(doc_text(d))
                    && doc_text(d).last() != '\r' && is_usage_frame(d) implies self.usage_tokens
                == usage_after(d, before.usage_tokens) by {
                let line = "data: "@ + doc_text(d);
                reveal_strlit("data: ");
                lemma_one_closed_line(b, line);
                assert(line.last() == doc_text(d).last());
                assert(trim_end_char(line, '\r') == line);
                lemma_usage_frame(line, d);
                assert(raw =~= seq![encode_utf8(line)]);
                assert(usage_is_read(line_text(raw[0])));
                assert(raw.drop_last() =~= Seq::<Seq<u8>>::empty());
                reveal_with_fuel(after_lines, 2);
            }
        }
        lines
    }

    /// Takes in one closed line: drops it, or hands it out and takes note of what it says.
    fn take_line(&mut self, raw: &[u8], lines: &mut Vec<String>)
        requires
            valid_utf8(raw@),
            old(self).emitted < u64::MAX,
            old(self).dropped < u64::MAX,
        ensures
            ({
                let p = Progress {
                    out: old(lines).deep_view(),
                    done: old(self).done_seen,
                    dropped: old(self).dropped as nat,
                    emitted: old(self).emitted as nat,
                    usage: old(self).usage_tokens,
                };
                let q = after_line(p, line_text(raw@));
                &&& final(lines).deep_view() == q.out
                &&& final(self).done_seen == q.done
                &&& final(self).dropped == q.dropped
                &&& final(self).emitted == q.emitted
                &&& final(self).usage_tokens == q.usage
            }),
            final(self).rejoined == old(self).rejoined,
            final(self).buffer@ == old(self).buffer@,
            usage_is_read(line_text(raw@)),
    {
        let whole = chars_of(read_utf8(raw).as_str());
        let line = trim_end_char_of(whole.as_slice(), '\r');
        if line.len() == 0 {
            proof {
                reveal_strlit("data: ");
            }
            return ;
        }
        if let Some(text) = self.normalize_line(text_of(line).as_str()) {
            let ghost before = lines.deep_view();
            lines.push(text);
            assert(lines.deep_view() =~= before.push(text@));
        }
    }

    /// What is handed out for a line: a `data:` line in normal form, any other as it is. An empty
    /// frame and a repeated `[DONE]` are dropped.
    pub fn normalize_line(&mut self, line: &str) -> (r: Option<String>)
        requires
            old(self).emitted < u64::MAX,
            old(self).dropped < u64::MAX,
        ensures
            opt_string(r) == delivered(line@, old(self).done_seen),
            final(self)@ == line_state(old(self)@, line@),
            usage_is_read(line@),
            forall|d: Doc|
                line@ == "data: "@ + #[trigger] doc_text(d) && is_usage_frame(d)
                    ==> final(self).usage_tokens == usage_after(d, old(self).usage_tokens),
    {
        proof {
            assert forall|d: Doc|
                line@ == "data: "@ + #[trigger] doc_text(d) && is_usage_frame(d) implies payload(line@)
                == Some(doc_text(d)) && doc_text(d) != "[DONE]"@ && contains(
                doc_text(d),
                "\"usage\""@,
            ) && is_document(encode_utf8(doc_text(d)), d) && delivered(
                line@,
                self.done_seen,
            ) is Some by {
                lemma_usage_frame(line@, d);
            }
        }
        let whole = chars_of(line);
        let line = whole.as_slice();
        let mark = chars_of("data:");
        proof {
            reveal_strlit("data:");
            reveal_strlit("[DONE]");
        }
        if !starts_with_chars(line, mark.as_slice()) {
            self.emitted += 1;
            return Some(text_of(line));
        }
        let data = trim_start_chars(vstd::slice::slice_subrange(line, 5, line.len()));
        if same_chars(data, chars_of("[DONE]").as_slice()) {
            if self.done_seen {
                self.dropped += 1;
                return None;
            }
            self.done_seen = true;
        } else if data.len() == 0 {
            self.dropped += 1;
            return None;
        } else {
            let body = text_of(data);
            if contains_text(body.as_str(), "\"usage\"") {
                let found = lookup(body.as_str().as_bytes(), "usage", Some("total_tokens"));
                self.note_usage(&found);
            }
        }
        self.emitted += 1;
        let mut out = "data: ".to_owned();
        out.append(text_of(data).as_str());
        Some(out)
    }

    /// Takes note of the token total that a lookup found.
    pub fn note_usage(&mut self, found: &Json)
        ensures
            *final(self) == (SseNormalizer {
                usage_tokens: match total_tokens(found@) {
                    Some(n) => Some(n),
                    None => old(self).usage_tokens,
                },
                ..*old(self)
            }),
    {
        if let Json::Unsigned(n) = found {
            self.usage_tokens = Some(*n);
        }
    }

    /// The bytes that tell the client that the stream failed: an error event, then `[DONE]`.
    /// An explicit failure, so that the client can retry at once; data is never made up.
    pub fn error_frame(&self, message: &str) -> (r: Vec<u8>)
        ensures
            r@ == encode_utf8(error_frame_text(message@)),
    {
        let mut out = "data: {\"error\":{\"message\":".to_owned();
        out.append(quoted(message).as_str());
        out.append(",\"proxy\":\"piglmbridger\",\"type\":\"proxy_upstream_error\"}}\n\ndata: [DONE]\n\n");
        vstd::slice::slice_to_vec(out.as_str().as_bytes())
    }

    /// Called when the stream broke off: empties the buffer, and describes what was in it. What
    /// is left in the buffer is a frame that upstream cut in half. It is never completed and
    /// sent, for the client would read half a JSON value. Half a `data:` frame counts as dropped,
    /// also where it was cut inside a character.
    pub fn drain_abrupt(&mut self) -> (r: Option<String>)
        requires
            old(self).buffer@.len() > 0 ==> old(self).dropped < u64::MAX,
        ensures
            final(self)@ == drain_state(old(self)@),
            (match r {
                Some(report) => old(self)@.buffer.len() > 0 && report@ == leftover_report(
                    text_in(old(self)@.buffer),
                ),
                None => old(self)@.buffer.len() == 0,
            }),
            no_newline(old(self)@.buffer) ==> final(self)@.dropped == old(self)@.dropped
                + if occurs(encode_utf8("data:"@), old(self)@.buffer) {
                1nat
            } else {
                0nat
            },
    {
        let ghost b = self@.buffer;
        proof {
            reveal_strlit("data:");
            reveal_strlit("\n");
            is_ascii_chars_encode_utf8("data:"@);
        }
        if self.buffer.len() == 0 {
            return None;
        }
        let leftover = read_lossy(self.buffer.as_slice());
        proof {
            if no_newline(b) {
                lemma_no_newline_in_text(b, leftover@);
            }
        }
        self.buffer = Vec::new();
        if is_truncated_frame(leftover.as_str()) {
            self.dropped += 1;
        }
        assert(self@ =~= drain_state(old(self)@));
        Some(describe_leftover(leftover.as_str()))
    }
}

// ---------------------------------------------------------------------------
// What is sent on
// ---------------------------------------------------------------------------

/// The lines as they are sent on: each is followed by an empty line.
pub open spec fn framed(lines: Seq<Seq<char>>) -> Seq<char>
    decreases lines.len(),
{
    if lines.len() == 0 {
        seq![]
    } else {
        framed(lines.drop_last()) + lines.last() + "\n\n"@
    }
}

/// The bytes of the lines as they are sent on.
pub fn frame_lines(lines: &Vec<String>) -> (r: Vec<u8>)
    ensures
        r@ == encode_utf8(framed(lines.deep_view())),
{
    let mut out = "".to_owned();
    let ghost all = lines.deep_view();
    proof {
        reveal_strlit("");
        assert(out@ =~= framed(all.take(0)));
    }
    for i in 0..lines.len()
        invariant
            all == lines.deep_view(),
            out@ == framed(all.take(i as int)),
    {
        out.append(lines[i].as_str());
        out.append("\n\n");
        proof {
            assert(all.take(i + 1).drop_last() =~= all.take(i as int));
            assert(all.take(i + 1).last() == lines[i as int]@);
        }
    }
    assert(all.take(lines@.len() as int) =~= all);
    vstd::slice::slice_to_vec(out.as_str().as_bytes())
}

// ---------------------------------------------------------------------------
// What is left when a stream breaks off
// ---------------------------------------------------------------------------

/// The text of the error event and of the `[DONE]` after it.
pub open spec fn error_frame_text(message: Seq<char>) -> Seq<char> {
    "data: {\"error\":{\"message\":"@ + json_literal(message)
        + ",\"proxy\":\"piglmbridger\",\"type\":\"proxy_upstream_error\"}}\n\ndata: [DONE]\n\n"@
}

/// Whether a leftover is a `data:` frame that was cut in half.
pub open spec fn truncated_frame(leftover: Seq<char>) -> bool {
    contains(leftover, "data:"@) && !ends_with(leftover, "\n"@)
}

/// A long text cut in the middle: its first and last `n / 2` characters.
pub open spec fn truncated(s: Seq<char>, n: nat) -> Seq<char> {
    if s.len() <= n || n == 0 {
        s
    } else {
        s.take((n / 2) as int) + "…"@ + s.skip(s.len() - n / 2)
    }
}

/// The description of a leftover. Sizes are in bytes.
pub open spec fn leftover_report(leftover: Seq<char>) -> Seq<char> {
    if truncated_frame(leftover) {
        "流被上游切断：残留未终结的 data 残帧("@ + decimal(encode_utf8(leftover).len()) + "B)已丢弃: "@
            + truncated(trim(leftover), 100) + "…"@
    } else {
        "流结束后缓冲区残留 "@ + decimal(encode_utf8(leftover).len()) + "B（非 data 残帧，已丢弃）"@
    }
}

/// Whether bytes hold no newline.
pub open spec fn no_newline(b: Seq<u8>) -> bool {
    forall|i: int| 0 <= i < b.len() ==> b[i] != 10
}

/// A text that has a newline only where the bytes do does not end with one where they have none.
proof fn lemma_no_newline_in_text(b: Seq<u8>, text: Seq<char>)
    requires
        no_newline(b),
        contains(text, "\n"@) <==> occurs(encode_utf8("\n"@), b),
    ensures
        !ends_with(text, "\n"@),
{
    reveal_strlit("\n");
    is_ascii_chars_encode_utf8("\n"@);
    let nl = encode_utf8("\n"@);
    if occurs(nl, b) {
        let i = choose|i: int|
            0 <= i && i + nl.len() <= b.len() && #[trigger] b.subrange(i, i + nl.len()) == nl;
        assert(b.subrange(i, i + nl.len())[0] == b[i]);
    }
    lemma_find(text, "\n"@);
    if ends_with(text, "\n"@) {
        let n = text.len() - 1;
        assert(text.subrange(n, n + "\n"@.len()) =~= text.skip(n));
    }
}

/// The normalizer after its buffer was drained.
pub open spec fn drain_state(n: NormalizerView) -> NormalizerView {
    NormalizerView {
        buffer: seq![],
        dropped: n.dropped + if n.buffer.len() > 0 && truncated_frame(text_in(n.buffer)) {
            1nat
        } else {
            0nat
        },
        ..n
    }
}

/// Whether a leftover is a `data:` frame that was cut in half.
pub fn is_truncated_frame(leftover: &str) -> (r: bool)
    ensures
        r == truncated_frame(leftover@),
{
    contains_text(leftover, "data:") && !ends_with_text(leftover, "\n")
}

/// Describes a leftover.
pub fn describe_leftover(leftover: &str) -> (r: String)
    ensures
        r@ == leftover_report(leftover@),
{
    let size = decimal_text(leftover.as_bytes().len() as u128);
    if is_truncated_frame(leftover) {
        let mut out = "流被上游切断：残留未终结的 data 残帧(".to_owned();
        out.append(size.as_str());
        out.append("B)已丢弃: ");
        out.append(truncate_mid(trim_text(leftover).as_str(), 100).as_str());
        out.append("…");
        out
    } else {
        let mut out = "流结束后缓冲区残留 ".to_owned();
        out.append(size.as_str());
        out.append("B（非 data 残帧，已丢弃）");
        out
    }
}

/// Cuts a long text in the middle, keeping its start and its end.
pub fn truncate_mid(s: &str, n: usize) -> (r: String)
    ensures
        r@ == truncated(s@, n as nat),
{
    let cs = chars_of(s);
    if cs.len() <= n || n == 0 {
        return s.to_owned();
    }
    let half: usize = n / 2;
    let mut out = text_of(vstd::slice::slice_subrange(cs.as_slice(), 0, half));
    out.append("…");
    out.append(
        text_of(vstd::slice::slice_subrange(cs.as_slice(), cs.len() - half, cs.len())).as_str(),
    );
    proof {
        assert(cs@.subrange(0, half as int) =~= s@.take((n as nat / 2) as int));
        assert(cs@.subrange(cs@.len() - half, cs@.len() as int) =~= s@.skip(s@.len() - n as nat / 2));
    }
    out
}

} // verus!
