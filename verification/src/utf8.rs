//! Bytes and text: how far a byte run is well-formed UTF-8, and reading it as text.
use crate::text::contains;
use vstd::prelude::*;
use vstd::utf8::*;

verus! {

/// The error of `String::from_utf8`.
#[verifier::external_type_specification]
#[verifier::external_body]
pub struct ExFromUtf8Error(std::string::FromUtf8Error);

/// `String::from_utf8` succeeds on exactly the well-formed byte runs, and the string it
/// returns has the characters that the bytes encode.
pub assume_specification[ String::from_utf8 ](vec: Vec<u8>) -> (r: Result<
    String,
    std::string::FromUtf8Error,
>)
    ensures
        r is Ok <==> valid_utf8(vec@),
        r matches Ok(s) ==> s@ == decode_utf8(vec@),
;

/// The text that `String::from_utf8_lossy` reads from a byte run.
pub uninterp spec fn lossy_text(bytes: Seq<u8>) -> Seq<char>;

/// The text of the longest well-formed run at the start of `b`.
pub open spec fn readable_text(b: Seq<u8>) -> Seq<char> {
    decode_utf8(b.take(valid_up_to(b) as int))
}

/// Whether `p` stands somewhere in `b`.
pub open spec fn occurs(p: Seq<u8>, b: Seq<u8>) -> bool {
    exists|i: int| 0 <= i && i + p.len() <= b.len() && #[trigger] b.subrange(i, i + p.len()) == p
}

/// Calls `String::from_utf8_lossy`. The result is a function of the bytes; on a well-formed
/// run it is the text that the bytes encode. The text of a well-formed start is kept. An ASCII
/// text stands in the result exactly where its bytes stand in the run, for they are never part of
/// what is replaced. How many replacement characters stand in place of an ill-formed part is not
/// said.
#[verifier::external_body]
pub(crate) fn read_lossy(bytes: &[u8]) -> (r: String)
    ensures
        r@ == lossy_text(bytes@),
        valid_utf8(bytes@) ==> r@ == decode_utf8(bytes@),
        readable_text(bytes@).len() <= r@.len(),
        r@.take(readable_text(bytes@).len() as int) == readable_text(bytes@),
        forall|p: Seq<char>|
            #![trigger contains(r@, p)]
            p.len() > 0 && is_ascii_chars(p) ==> (contains(r@, p) <==> occurs(
                encode_utf8(p),
                bytes@,
            )),
{
    String::from_utf8_lossy(bytes).into_owned()
}

/// The text in a byte run: the text that it encodes, or, where it is not well-formed, what is
/// read in its place.
pub open spec fn text_in(b: Seq<u8>) -> Seq<char> {
    if valid_utf8(b) {
        decode_utf8(b)
    } else {
        lossy_text(b)
    }
}

/// The length of the longest well-formed run at the start of `b`.
pub open spec fn valid_up_to(b: Seq<u8>) -> nat
    decreases b.len(),
{
    if b.len() > 0 && valid_first_scalar(b) {
        (length_of_first_scalar(b) + valid_up_to(pop_first_scalar(b))) as nat
    } else {
        0
    }
}

/// The run of length `valid_up_to(b)` is well-formed, and what follows it, if anything, does
/// not begin with a character.
pub proof fn lemma_valid_up_to(b: Seq<u8>)
    ensures
        valid_up_to(b) <= b.len(),
        valid_utf8(b.take(valid_up_to(b) as int)),
        valid_up_to(b) < b.len() ==> !valid_first_scalar(b.skip(valid_up_to(b) as int)),
    decreases b.len(),
{
    if b.len() > 0 && valid_first_scalar(b) {
        let n = length_of_first_scalar(b);
        let rest = pop_first_scalar(b);
        lemma_valid_up_to(rest);
        let v = valid_up_to(b) as int;
        assert(b.skip(v) =~= rest.skip(valid_up_to(rest) as int));
        let t = b.take(v);
        assert(valid_first_scalar(t));
        assert(pop_first_scalar(t) =~= rest.take(valid_up_to(rest) as int));
        assert(valid_utf8(t));
    } else {
        assert(b.take(0).len() == 0);
        assert(b.skip(0) =~= b);
    }
}

/// Nothing longer than `valid_up_to(b)` at the start of `b` is well-formed.
pub proof fn lemma_valid_up_to_is_longest(b: Seq<u8>, k: int)
    requires
        0 <= k <= b.len(),
        valid_utf8(b.take(k)),
    ensures
        k <= valid_up_to(b),
    decreases b.len(),
{
    if k > 0 {
        let t = b.take(k);
        assert(valid_first_scalar(t));
        let n = length_of_first_scalar(t);
        assert(valid_first_scalar(b) && length_of_first_scalar(b) == n);
        assert(pop_first_scalar(t) =~= pop_first_scalar(b).take(k - n));
        lemma_valid_up_to_is_longest(pop_first_scalar(b), k - n);
    }
}

/// A well-formed run is well-formed to its end.
pub proof fn lemma_valid_is_whole(b: Seq<u8>)
    requires
        valid_utf8(b),
    ensures
        valid_up_to(b) == b.len(),
{
    assert(b.take(b.len() as int) =~= b);
    lemma_valid_up_to_is_longest(b, b.len() as int);
    lemma_valid_up_to(b);
}

/// A well-formed run at the start does not change how far the rest is well-formed.
pub proof fn lemma_valid_up_to_after(b: Seq<u8>, k: int)
    requires
        0 <= k <= b.len(),
        valid_utf8(b.take(k)),
    ensures
        valid_up_to(b) == k + valid_up_to(b.skip(k)),
    decreases b.len(),
{
    if k > 0 {
        let t = b.take(k);
        assert(valid_first_scalar(t));
        let n = length_of_first_scalar(t);
        assert(valid_first_scalar(b) && length_of_first_scalar(b) == n);
        assert(pop_first_scalar(t) =~= pop_first_scalar(b).take(k - n));
        lemma_valid_up_to_after(pop_first_scalar(b), k - n);
        assert(pop_first_scalar(b).skip(k - n) =~= b.skip(k));
    } else {
        assert(b.skip(0) =~= b);
    }
}

/// The encoding of two texts one after the other.
pub proof fn lemma_encode_concat(a: Seq<char>, b: Seq<char>)
    ensures
        encode_utf8(a + b) == encode_utf8(a) + encode_utf8(b),
    decreases a.len(),
{
    if a.len() == 0 {
        assert(a + b =~= b);
        assert(encode_utf8(a) + encode_utf8(b) =~= encode_utf8(b));
    } else {
        lemma_encode_concat(a.drop_first(), b);
        assert((a + b).drop_first() =~= a.drop_first() + b);
        assert(encode_utf8(a + b) =~= encode_utf8(a) + encode_utf8(b));
    }
}

/// Only a newline is encoded with a newline byte.
proof fn lemma_newline_of_char(c: char)
    ensures
        c == '\n' ==> encode_scalar(c as u32) == seq![10u8],
        c != '\n' ==> forall|i: int|
            0 <= i < encode_scalar(c as u32).len() ==> #[trigger] encode_scalar(c as u32)[i] != 10,
{
    let v = c as u32;
    char_is_scalar(c);
    if has_width_1_encoding(v) {
        assert((v & 0x7F) as u8 == v) by (bit_vector)
            requires
                v <= 0x7F,
        ;
    } else {
        assert((0xC0u8 | ((v >> 6) & 0x1F) as u8) >= 0x80) by (bit_vector);
        assert((0xE0u8 | ((v >> 12) & 0x0F) as u8) >= 0x80) by (bit_vector);
        assert((0xF0u8 | ((v >> 18) & 0x7) as u8) >= 0x80) by (bit_vector);
        assert((0x80u8 | (v & 0x3F) as u8) >= 0x80) by (bit_vector);
        assert((0x80u8 | ((v >> 6) & 0x3F) as u8) >= 0x80) by (bit_vector);
        assert((0x80u8 | ((v >> 12) & 0x3F) as u8) >= 0x80) by (bit_vector);
    }
}

/// Whether a text holds no newline.
pub open spec fn one_line(s: Seq<char>) -> bool {
    forall|i: int| 0 <= i < s.len() ==> s[i] != '\n'
}

/// A text holds no newline exactly where its bytes hold no newline byte.
pub proof fn lemma_newlines_in_bytes(s: Seq<char>)
    ensures
        one_line(s) <==> forall|i: int| 0 <= i < encode_utf8(s).len() ==> encode_utf8(s)[i] != 10,
    decreases s.len(),
{
    if s.len() > 0 {
        let head = encode_scalar(s[0] as u32);
        let rest = s.drop_first();
        let b = encode_utf8(s);
        lemma_newline_of_char(s[0]);
        lemma_newlines_in_bytes(rest);
        assert(b == head + encode_utf8(rest));
        if one_line(s) {
            assert forall|i: int| 0 <= i < rest.len() implies rest[i] != '\n' by {
                assert(rest[i] == s[i + 1]);
            }
            assert forall|i: int| 0 <= i < b.len() implies b[i] != 10 by {
                if i >= head.len() {
                    assert(b[i] == encode_utf8(rest)[i - head.len()]);
                }
            }
        } else if s[0] == '\n' {
            assert(b[0] == 10);
        } else {
            let k = choose|k: int| 0 <= k < s.len() && s[k] == '\n';
            assert(rest[k - 1] == '\n');
            let i = choose|i: int| 0 <= i < encode_utf8(rest).len() && encode_utf8(rest)[i] == 10;
            assert(b[head.len() + i] == 10);
        }
    }
}

// ---------------------------------------------------------------------------
// Which bytes begin a character
// ---------------------------------------------------------------------------

/// Whether a byte can follow the first byte of a character of three or four bytes.
spec fn can_be_second(first: u8, second: u8) -> bool {
    if first == 0xe0 {
        0xa0 <= second <= 0xbf
    } else if first == 0xed {
        0x80 <= second <= 0x9f
    } else if first == 0xf0 {
        0x90 <= second <= 0xbf
    } else if first == 0xf4 {
        0x80 <= second <= 0x8f
    } else {
        0x80 <= second <= 0xbf
    }
}

/// The width of the character at the start of `s` by the ranges of its bytes, or 0 if none
/// begins there.
spec fn width_by_ranges(s: Seq<u8>) -> int {
    if s.len() >= 1 && s[0] <= 0x7f {
        1
    } else if s.len() >= 2 && 0xc2 <= s[0] <= 0xdf && is_continuation_byte(s[1]) {
        2
    } else if s.len() >= 3 && 0xe0 <= s[0] <= 0xef && can_be_second(s[0], s[1])
        && is_continuation_byte(s[2]) {
        3
    } else if s.len() >= 4 && 0xf0 <= s[0] <= 0xf4 && can_be_second(s[0], s[1])
        && is_continuation_byte(s[2]) && is_continuation_byte(s[3]) {
        4
    } else {
        0
    }
}

/// The ranges of the bytes tell where a character begins, and how wide it is.
proof fn lemma_width_by_ranges(s: Seq<u8>)
    ensures
        width_by_ranges(s) == 0 <==> !valid_first_scalar(s),
        width_by_ranges(s) > 0 ==> width_by_ranges(s) == length_of_first_scalar(s),
{
    if s.len() >= 1 {
        let b0 = s[0];
        assert(b0 <= 0x7f ==> (b0 & 0x7f) as u32 <= 0x7f) by (bit_vector);
    }
    if s.len() >= 2 {
        let b0 = s[0];
        let b1 = s[1];
        assert(0xc0 <= b0 < 0xc2 ==> ((b0 & 0x1f) as u32) << 6 | ((b1 & 0x3f) as u32) < 0x80)
            by (bit_vector);
        assert(0xc2 <= b0 <= 0xdf ==> 0x80 <= ((b0 & 0x1f) as u32) << 6 | ((b1 & 0x3f) as u32)
            < 0x800) by (bit_vector);
    }
    if s.len() >= 3 {
        let b0 = s[0];
        let b1 = s[1];
        let b2 = s[2];
        assert(b0 == 0xe0 && 0x80 <= b1 <= 0xbf ==> ((b1 < 0xa0) <==> (((b0 & 0x0f) as u32) << 12 | (
        (b1 & 0x3f) as u32) << 6 | ((b2 & 0x3f) as u32)) < 0x800)) by (bit_vector);
        assert(0xe1 <= b0 <= 0xef ==> (((b0 & 0x0f) as u32) << 12 | ((b1 & 0x3f) as u32) << 6 | ((b2
            & 0x3f) as u32)) >= 0x800) by (bit_vector);
        assert(0xe0 <= b0 <= 0xef && 0x80 <= b1 <= 0xbf ==> ((b0 == 0xed && b1 >= 0xa0) <==> 0xd800
            <= (((b0 & 0x0f) as u32) << 12 | ((b1 & 0x3f) as u32) << 6 | ((b2 & 0x3f) as u32))
            <= 0xdfff)) by (bit_vector);
    }
    if s.len() >= 4 {
        let b0 = s[0];
        let b1 = s[1];
        let b2 = s[2];
        let b3 = s[3];
        assert(0xf4 < b0 <= 0xf7 ==> ((b0 & 0x07) as u32) << 18 | ((b1 & 0x3f) as u32) << 12 | ((b2
            & 0x3f) as u32) << 6 | ((b3 & 0x3f) as u32) > 0x10ffff) by (bit_vector);
        assert(0xf0 <= b0 <= 0xf4 && 0x80 <= b1 <= 0xbf ==> ((b0 == 0xf0 && b1 < 0x90) <==> (((b0
            & 0x07) as u32) << 18 | ((b1 & 0x3f) as u32) << 12 | ((b2 & 0x3f) as u32) << 6 | ((b3
            & 0x3f) as u32)) < 0x10000)) by (bit_vector);
        assert(0xf0 <= b0 <= 0xf4 && 0x80 <= b1 <= 0xbf ==> ((b0 == 0xf4 && b1 >= 0x90) <==> (((b0
            & 0x07) as u32) << 18 | ((b1 & 0x3f) as u32) << 12 | ((b2 & 0x3f) as u32) << 6 | ((b3
            & 0x3f) as u32)) > 0x10ffff)) by (bit_vector);
    }
}

/// Whether bytes are the start of a character, but not a whole one.
pub open spec fn partial(s: Seq<u8>) -> bool {
    s.len() > 0 && exists|more: Seq<u8>| #[trigger]
        valid_first_scalar(s + more) && length_of_first_scalar(s + more) > s.len()
}

/// Whether bytes are the start of a character, by their ranges.
spec fn partial_by_ranges(s: Seq<u8>) -> bool {
    if s.len() == 1 {
        0xc2 <= s[0] <= 0xf4
    } else if s.len() == 2 {
        0xe0 <= s[0] <= 0xf4 && can_be_second(s[0], s[1])
    } else if s.len() == 3 {
        0xf0 <= s[0] <= 0xf4 && can_be_second(s[0], s[1]) && is_continuation_byte(s[2])
    } else {
        false
    }
}

/// The ranges of the bytes tell whether they are the start of a character.
proof fn lemma_partial_by_ranges(s: Seq<u8>)
    ensures
        partial(s) <==> partial_by_ranges(s),
{
    if partial(s) {
        let more = choose|more: Seq<u8>| #[trigger]
            valid_first_scalar(s + more) && length_of_first_scalar(s + more) > s.len();
        let t = s + more;
        lemma_width_by_ranges(t);
        assert(t[0] == s[0]);
        assert(s.len() > 1 ==> t[1] == s[1]);
        assert(s.len() > 2 ==> t[2] == s[2]);
    }
    if partial_by_ranges(s) {
        let second = if s[0] == 0xe0 {
            0xa0u8
        } else if s[0] == 0xf0 {
            0x90u8
        } else {
            0x80u8
        };
        let more = if s.len() == 1 {
            seq![second, 0x80u8, 0x80u8]
        } else {
            seq![0x80u8, 0x80u8]
        };
        let t = s + more;
        assert(t[0] == s[0]);
        assert(s.len() == 1 ==> t[1] == second && t[2] == 0x80 && t[3] == 0x80);
        assert(s.len() == 2 ==> t[1] == s[1] && t[2] == 0x80 && t[3] == 0x80);
        assert(s.len() == 3 ==> t[1] == s[1] && t[2] == s[2] && t[3] == 0x80);
        lemma_width_by_ranges(t);
        assert(valid_first_scalar(s + more));
    }
}

/// The start of a character is short, and holds no whole character and no newline.
pub proof fn lemma_partial(s: Seq<u8>)
    requires
        partial(s),
    ensures
        s.len() < 4,
        !valid_first_scalar(s),
        forall|i: int| 0 <= i < s.len() ==> s[i] >= 0x80,
        s[0] >= 0xc0,
{
    lemma_partial_by_ranges(s);
    lemma_width_by_ranges(s);
}

/// The width of the character at position `at`, or 0 if none begins there.
fn scalar_width(b: &[u8], at: usize) -> (r: usize)
    requires
        at < b@.len(),
    ensures
        r == 0 <==> !valid_first_scalar(b@.skip(at as int)),
        r > 0 ==> r == length_of_first_scalar(b@.skip(at as int)) && at + r <= b@.len(),
{
    let n: usize = b.len() - at;
    let ghost s = b@.skip(at as int);
    proof {
        lemma_width_by_ranges(s);
        assert(s[0] == b@[at as int]);
        assert(n > 1 ==> s[1] == b@[at + 1]);
        assert(n > 2 ==> s[2] == b@[at + 2]);
        assert(n > 3 ==> s[3] == b@[at + 3]);
    }
    let first = b[at];
    if first <= 0x7f {
        1
    } else if n < 2 || first < 0xc2 || first > 0xf4 {
        0
    } else if first <= 0xdf {
        if continues(b[at + 1]) {
            2
        } else {
            0
        }
    } else if n < 3 || !may_be_second(first, b[at + 1]) || !continues(b[at + 2]) {
        0
    } else if first <= 0xef {
        3
    } else if n >= 4 && continues(b[at + 3]) {
        4
    } else {
        0
    }
}

fn continues(b: u8) -> (r: bool)
    ensures
        r == is_continuation_byte(b),
{
    0x80 <= b && b <= 0xbf
}

fn may_be_second(first: u8, second: u8) -> (r: bool)
    ensures
        r == can_be_second(first, second),
{
    if first == 0xe0 {
        0xa0 <= second && second <= 0xbf
    } else if first == 0xed {
        0x80 <= second && second <= 0x9f
    } else if first == 0xf0 {
        0x90 <= second && second <= 0xbf
    } else if first == 0xf4 {
        0x80 <= second && second <= 0x8f
    } else {
        continues(second)
    }
}

/// Whether what follows position `at` is the start of a character, but not a whole one.
fn is_partial_at(b: &[u8], at: usize) -> (r: bool)
    requires
        at < b@.len(),
    ensures
        r == partial(b@.skip(at as int)),
{
    let n: usize = b.len() - at;
    let ghost s = b@.skip(at as int);
    proof {
        lemma_partial_by_ranges(s);
        assert(s[0] == b@[at as int]);
        assert(n > 1 ==> s[1] == b@[at + 1]);
        assert(n > 2 ==> s[2] == b@[at + 2]);
    }
    let first = b[at];
    if n == 1 {
        0xc2 <= first && first <= 0xf4
    } else if n == 2 {
        0xe0 <= first && first <= 0xf4 && may_be_second(first, b[at + 1])
    } else if n == 3 {
        0xf0 <= first && first <= 0xf4 && may_be_second(first, b[at + 1]) && continues(b[at + 2])
    } else {
        false
    }
}

// ---------------------------------------------------------------------------
// Bytes that arrive in pieces
// ---------------------------------------------------------------------------

/// The bytes of the replacement character U+FFFD.
pub open spec fn replacement() -> Seq<u8> {
    seq![0xefu8, 0xbfu8, 0xbdu8]
}

/// What is settled of the bytes that have arrived: their characters, and a replacement character
/// for each byte that can never be part of one. The start of a character at the end is not.
pub open spec fn settled(b: Seq<u8>) -> Seq<u8>
    decreases b.len(),
{
    if b.len() == 0 || partial(b) {
        seq![]
    } else if valid_first_scalar(b) {
        take_first_scalar(b) + settled(pop_first_scalar(b))
    } else {
        replacement() + settled(b.skip(1))
    }
}

/// What is not settled: the start of a character at the end, or nothing.
pub open spec fn waiting(b: Seq<u8>) -> Seq<u8>
    decreases b.len(),
{
    if b.len() == 0 || partial(b) {
        b
    } else if valid_first_scalar(b) {
        waiting(pop_first_scalar(b))
    } else {
        waiting(b.skip(1))
    }
}

/// What waits is the end of the bytes, and nothing or the start of a character.
pub proof fn lemma_waiting(b: Seq<u8>)
    ensures
        waiting(b).len() <= b.len(),
        waiting(b) == b.skip(b.len() - waiting(b).len()),
        waiting(b).len() == 0 || partial(waiting(b)),
    decreases b.len(),
{
    if b.len() == 0 || partial(b) {
        assert(b =~= b.skip(0));
    } else if valid_first_scalar(b) {
        lemma_waiting(pop_first_scalar(b));
        assert(waiting(b) =~= b.skip(b.len() - waiting(b).len()));
    } else {
        lemma_waiting(b.skip(1));
        assert(waiting(b) =~= b.skip(b.len() - waiting(b).len()));
    }
}

/// A byte that no character holds is settled by its replacement.
pub proof fn lemma_bad_byte(b: Seq<u8>)
    requires
        b.len() > 0,
        b[0] >= 0xf5,
    ensures
        settled(b) == replacement() + settled(b.skip(1)),
{
    lemma_width_by_ranges(b);
    lemma_partial_by_ranges(b);
}

/// What is settled is well-formed.
pub proof fn lemma_settled_is_valid(b: Seq<u8>)
    ensures
        valid_utf8(settled(b)),
    decreases b.len(),
{
    if b.len() == 0 || partial(b) {
    } else if valid_first_scalar(b) {
        let rest = pop_first_scalar(b);
        let t = settled(b);
        lemma_settled_is_valid(rest);
        assert(valid_first_scalar(t));
        assert(pop_first_scalar(t) =~= settled(rest));
    } else {
        let rest = settled(b.skip(1));
        let t = settled(b);
        lemma_settled_is_valid(b.skip(1));
        assert(t[0] == 0xef && t[1] == 0xbf && t[2] == 0xbd);
        lemma_width_by_ranges(t);
        assert(pop_first_scalar(t) =~= rest);
    }
}

/// Well-formed bytes are settled as they are.
pub proof fn lemma_settled_after(v: Seq<u8>, w: Seq<u8>)
    requires
        valid_utf8(v),
    ensures
        settled(v + w) == v + settled(w),
        waiting(v + w) == waiting(w),
    decreases v.len(),
{
    let b = v + w;
    if v.len() == 0 {
        assert(b =~= w);
        assert(v + settled(w) =~= settled(w));
    } else {
        let rest = pop_first_scalar(v);
        assert(valid_first_scalar(b));
        assert(length_of_first_scalar(b) == length_of_first_scalar(v));
        if partial(b) {
            lemma_partial(b);
        }
        assert(pop_first_scalar(b) =~= rest + w);
        lemma_settled_after(rest, w);
        assert(take_first_scalar(b) =~= take_first_scalar(v));
        assert(take_first_scalar(v) + (rest + settled(w)) =~= v + settled(w));
    }
}

/// A well-formed run is settled to its end.
pub proof fn lemma_valid_is_settled(b: Seq<u8>)
    requires
        valid_utf8(b),
    ensures
        settled(b) == b,
        waiting(b).len() == 0,
{
    let none = Seq::<u8>::empty();
    lemma_settled_after(b, none);
    assert(b + none =~= b);
    assert(b + settled(none) =~= b);
}

/// What is settled stays so when more arrives; what waits is read together with it.
pub proof fn lemma_settled_stays(x: Seq<u8>, y: Seq<u8>)
    ensures
        settled(x + y) == settled(x) + settled(waiting(x) + y),
        waiting(x + y) == waiting(waiting(x) + y),
    decreases x.len(),
{
    let b = x + y;
    if x.len() == 0 || partial(x) {
        assert(settled(x) + settled(b) =~= settled(b));
    } else if valid_first_scalar(x) {
        let rest = pop_first_scalar(x);
        assert(valid_first_scalar(b));
        assert(length_of_first_scalar(b) == length_of_first_scalar(x));
        if partial(b) {
            lemma_partial(b);
        }
        assert(pop_first_scalar(b) =~= rest + y);
        assert(take_first_scalar(b) =~= take_first_scalar(x));
        lemma_settled_stays(rest, y);
        assert(settled(b) =~= settled(x) + settled(waiting(x) + y));
    } else {
        if valid_first_scalar(b) {
            let n = length_of_first_scalar(b);
            if n <= x.len() {
                lemma_width_by_ranges(b);
                lemma_width_by_ranges(x);
                assert(forall|i: int| 0 <= i < x.len() ==> b[i] == x[i]);
            }
        }
        if partial(b) {
            let more = choose|more: Seq<u8>| #[trigger]
                valid_first_scalar(b + more) && length_of_first_scalar(b + more) > b.len();
            assert(x + (y + more) =~= b + more);
        }
        assert(b.skip(1) =~= x.skip(1) + y);
        lemma_settled_stays(x.skip(1), y);
        assert(settled(b) =~= settled(x) + settled(waiting(x) + y));
    }
}

/// A piece of a line as it is kept until more arrives: the first byte that is not part of a
/// character is replaced. It stays where it has the form of a first byte and fewer than four
/// bytes are there from it on, for the rest of a character may still come.
pub open spec fn mended(b: Seq<u8>) -> Seq<u8> {
    let v = valid_up_to(b) as int;
    if v == b.len() || (b.len() - v < 4 && b[v] >= 0xc0) {
        b
    } else {
        b.take(v) + replacement() + b.skip(v + 1)
    }
}

proof fn lemma_replacement_is_valid()
    ensures
        valid_utf8(replacement()),
{
    let t = replacement();
    assert(t[0] == 0xef && t[1] == 0xbf && t[2] == 0xbd);
    lemma_width_by_ranges(t);
    assert(pop_first_scalar(t) =~= Seq::<u8>::empty());
    assert(valid_utf8(pop_first_scalar(t)));
}

/// What is kept is read like what arrived.
pub proof fn lemma_mended(b: Seq<u8>)
    ensures
        settled(mended(b)) == settled(b),
        waiting(mended(b)) == waiting(b),
{
    let v = valid_up_to(b) as int;
    lemma_valid_up_to(b);
    let h = b.take(v);
    let t = b.skip(v);
    if mended(b) != b {
        assert(t[0] == b[v]);
        if partial(t) {
            lemma_partial(t);
        }
        assert(b =~= h + t);
        lemma_settled_after(h, t);
        let r = replacement();
        lemma_replacement_is_valid();
        valid_utf8_concat(h, r);
        lemma_settled_after(h + r, t.skip(1));
        assert(b.skip(v + 1) =~= t.skip(1));
        assert(h + (r + settled(t.skip(1))) =~= h + r + settled(t.skip(1)));
    }
}

/// The start of a text is kept as it came.
pub proof fn lemma_text_is_not_mended(b: Seq<u8>, rest: Seq<u8>)
    requires
        valid_utf8(b + rest),
    ensures
        mended(b) == b,
{
    let v = valid_up_to(b) as int;
    lemma_valid_up_to(b);
    let w = b + rest;
    let t = b.skip(v);
    assert(w.take(v) =~= b.take(v));
    lemma_valid_up_to_after(w, v);
    lemma_valid_is_whole(w);
    assert(w.skip(v) =~= t + rest);
    if t.len() > 0 {
        let u = t + rest;
        assert(valid_first_scalar(u));
        if length_of_first_scalar(u) <= t.len() {
            lemma_width_by_ranges(u);
            lemma_width_by_ranges(t);
            assert(forall|i: int| 0 <= i < t.len() ==> u[i] == t[i]);
        }
        assert(partial(t));
        lemma_partial(t);
        assert(t[0] == b[v]);
    }
}

/// A piece of a line as it is kept until more arrives.
pub fn mend(b: &[u8]) -> (r: Vec<u8>)
    ensures
        r@ == mended(b@),
{
    let n = b.len();
    let v = valid_prefix(b);
    if v == n || (n - v < 4 && b[v] >= 0xc0) {
        return vstd::slice::slice_to_vec(b);
    }
    let mut out: Vec<u8> = vstd::slice::slice_to_vec(vstd::slice::slice_subrange(b, 0, v));
    out.push(0xef);
    out.push(0xbf);
    out.push(0xbd);
    out.extend_from_slice(vstd::slice::slice_subrange(b, v + 1, n));
    proof {
        assert(b@.subrange(0, v as int) =~= b@.take(v as int));
        assert(b@.subrange(v + 1, n as int) =~= b@.skip(v + 1));
        assert(out@ =~= mended(b@));
    }
    out
}

/// Settles the bytes that have arrived.
pub fn settle(b: &[u8]) -> (r: Vec<u8>)
    ensures
        r@ == settled(b@),
{
    let n = b.len();
    let mut out: Vec<u8> = Vec::new();
    let mut i: usize = 0;
    proof {
        assert(b@.skip(0) =~= b@);
        assert(out@ + settled(b@) =~= settled(b@));
    }
    while i < n
        invariant_except_break
            out@ + settled(b@.skip(i as int)) == settled(b@),
        invariant
            i <= n,
            n == b@.len(),
        ensures
            out@ == settled(b@),
        decreases n - i,
    {
        let ghost rest = b@.skip(i as int);
        let ghost before = out@;
        if is_partial_at(b, i) {
            assert(out@ + settled(rest) =~= out@);
            break;
        }
        let w = scalar_width(b, i);
        if w > 0 {
            out.extend_from_slice(vstd::slice::slice_subrange(b, i, i + w));
            proof {
                assert(b@.subrange(i as int, i + w) =~= take_first_scalar(rest));
                assert(pop_first_scalar(rest) =~= b@.skip(i + w));
                assert(out@ =~= before + take_first_scalar(rest));
                assert(before + (take_first_scalar(rest) + settled(b@.skip(i + w))) =~= out@
                    + settled(b@.skip(i + w)));
            }
            i = i + w;
        } else {
            out.push(0xef);
            out.push(0xbf);
            out.push(0xbd);
            proof {
                assert(rest.skip(1) =~= b@.skip(i + 1));
                assert(out@ =~= before + replacement());
                assert(before + (replacement() + settled(b@.skip(i + 1))) =~= out@ + settled(
                    b@.skip(i + 1),
                ));
            }
            i = i + 1;
        }
        proof {
            if i >= n {
                assert(b@.skip(i as int) =~= Seq::<u8>::empty());
                assert(out@ + settled(b@.skip(i as int)) =~= out@);
            }
        }
    }
    out
}

/// The length of the longest well-formed run at the start of `b`.
pub fn valid_prefix(b: &[u8]) -> (r: usize)
    ensures
        r == valid_up_to(b@),
        r <= b@.len(),
{
    let n = b.len();
    let mut i: usize = 0;
    assert(b@.skip(0) =~= b@);
    proof {
        lemma_valid_up_to(b@);
    }
    while i < n
        invariant
            i <= n,
            n == b@.len(),
            valid_up_to(b@) <= n,
            valid_up_to(b@) == i + valid_up_to(b@.skip(i as int)),
        decreases n - i,
    {
        let w = scalar_width(b, i);
        if w == 0 {
            return i;
        }
        assert(pop_first_scalar(b@.skip(i as int)) =~= b@.skip(i + w));
        i = i + w;
    }
    i
}

/// The text that a well-formed byte run encodes.
pub fn read_utf8(b: &[u8]) -> (r: String)
    requires
        valid_utf8(b@),
    ensures
        r@ == decode_utf8(b@),
{
    match String::from_utf8(vstd::slice::slice_to_vec(b)) {
        Ok(s) => s,
        Err(_) => String::new(),
    }
}

} // verus!
