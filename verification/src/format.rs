//! How sizes, spans of time and addresses are shown in the log.
use crate::clock::{law_seconds_are_near, seconds, seconds_of, Duration, ONE_SECOND};
use crate::decimal::{
    all_digits, decimal, decimal_text, decimal_value, digit, digit_value, is_digit,
    lemma_decimal_reads_back,
};
use crate::rounding::{
    half_even, half_even_of, hundredths_of, hundredths_text, law_half_even_is_near,
    law_rounded_is_near, rounded, rounded_to, tenths_of, tenths_text,
};
use crate::text::{
    char_at_or_end, chars_of, join, join_texts, keep_last, last_of, lemma_char_at_or_end,
    lemma_char_at_or_end_unique, opt_string, split, split_chars, starts_with, starts_with_text,
    text_of,
};
use vstd::prelude::*;

verus! {

// ---------------------------------------------------------------------------
// Sizes and spans of time
// ---------------------------------------------------------------------------

/// The significands of double precision are less than this.
pub const DOUBLE: u128 = 0x20_0000_0000_0000;

/// A number of bytes as it is shown: in bytes, kilobytes or megabytes. The last are computed in
/// double precision, which can hold every size below 2^53 bytes exactly.
pub open spec fn bytes_text(b: nat) -> Seq<char> {
    if b < 1024 {
        decimal(b) + "B"@
    } else if b < 1024 * 1024 {
        tenths_text(half_even(b * 10, 1024)) + "KB"@
    } else {
        tenths_text(half_even(rounded(b, DOUBLE as nat) * 10, 1024 * 1024)) + "MB"@
    }
}

/// Shows a number of bytes.
pub fn fmt_bytes(b: u64) -> (r: String)
    ensures
        r@ == bytes_text(b as nat),
        shows_size(r@, b as nat),
{
    proof {
        law_size_is_shown(b as nat);
    }
    if b < 1024 {
        let mut out = decimal_text(b as u128);
        out.append("B");
        out
    } else if b < 1024 * 1024 {
        let mut out = tenths_of(half_even_of(b as u128 * 10, 1024));
        out.append("KB");
        out
    } else {
        let near = rounded_to(b as u128, DOUBLE);
        let mut out = tenths_of(half_even_of(near * 10, 1024 * 1024));
        out.append("MB");
        out
    }
}

/// A span of nanoseconds as it is shown: in milliseconds below one second, else in seconds with
/// one digit after the point, computed in single precision.
pub open spec fn duration_text(span: nat) -> Seq<char> {
    if span / 1_000_000 < 1000 {
        "+"@ + decimal(span / 1_000_000) + "ms"@
    } else {
        "+"@ + tenths_text(half_even(seconds(span) * 10, ONE_SECOND as nat)) + "s"@
    }
}

/// Shows a span of time.
pub fn fmt_duration(d: Duration) -> (r: String)
    ensures
        r@ == duration_text(d@),
        r@.len() > 0 && r@[0] == '+' && shows_span(r@.skip(1), d@),
{
    proof {
        law_span_is_shown(d@);
    }
    let ms = d.as_millis();
    let mut out = "+".to_owned();
    if ms < 1000 {
        out.append(decimal_text(ms).as_str());
        out.append("ms");
    } else {
        out.append(tenths_of(half_even_of(seconds_of(&d) * 10, ONE_SECOND)).as_str());
        out.append("s");
    }
    out
}

/// A span of nanoseconds in seconds with two digits after the point, as in the log file.
pub open spec fn seconds_text(span: nat) -> Seq<char> {
    hundredths_text(half_even(seconds(span) * 100, ONE_SECOND as nat))
}

/// Shows a span of time in seconds with two digits after the point.
pub fn fmt_seconds(d: Duration) -> (r: String)
    ensures
        r@ == seconds_text(d@),
        exists|t: nat| #[trigger] shows_hundredths(r@, t) && is_near(t, 10_000_000, d@),
{
    proof {
        law_seconds_are_shown(d@);
    }
    hundredths_of(half_even_of(seconds_of(&d) * 100, ONE_SECOND))
}

/// Whether `t` times `d` is `n`, up to half of `d` and one part in a hundred thousand of `n`.
pub open spec fn is_near(t: nat, d: nat, n: nat) -> bool {
    &&& 200_000 * (t * d) <= 200_000 * n + 100_000 * d + 2 * n
    &&& 200_000 * n <= 200_000 * (t * d) + 100_000 * d + 2 * n
}

/// Whether a text is a number with one digit behind the point, so many tenths.
pub open spec fn shows_tenths(s: Seq<char>, t: nat) -> bool {
    &&& s.len() >= 3
    &&& all_digits(s.take(s.len() - 2))
    &&& s[s.len() - 2] == '.'
    &&& is_digit(s.last())
    &&& t == 10 * decimal_value(s.take(s.len() - 2)) + digit_value(s.last())
}

/// Whether a text is a number with two digits behind the point, so many hundredths.
pub open spec fn shows_hundredths(s: Seq<char>, t: nat) -> bool {
    &&& s.len() >= 4
    &&& all_digits(s.take(s.len() - 3))
    &&& s[s.len() - 3] == '.'
    &&& is_digit(s[s.len() - 2]) && is_digit(s.last())
    &&& t == 100 * decimal_value(s.take(s.len() - 3)) + 10 * digit_value(s[s.len() - 2])
        + digit_value(s.last())
}

/// Whether a text, read as a number of milliseconds, or as one of seconds with one digit behind
/// the point, is a span of nanoseconds.
pub open spec fn shows_span(s: Seq<char>, span: nat) -> bool {
    if span < 1_000_000_000 {
        exists|d: Seq<char>|
            all_digits(d) && decimal_value(d) == span / 1_000_000 && s == #[trigger] (d + "ms"@)
    } else {
        exists|d: Seq<char>, t: nat| #[trigger]
            shows_tenths(d, t) && is_near(t, 100_000_000, span) && s == d + "s"@
    }
}

/// Whether a text, read as a number of bytes, or as one of kilobytes or megabytes with one digit
/// behind the point, is a size.
pub open spec fn shows_size(s: Seq<char>, b: nat) -> bool {
    if b < 1024 {
        exists|d: Seq<char>| all_digits(d) && decimal_value(d) == b && s == #[trigger] (d + "B"@)
    } else if b < 1024 * 1024 {
        exists|d: Seq<char>, t: nat| #[trigger]
            shows_tenths(d, t) && is_near(t, 1024, 10 * b) && s == d + "KB"@
    } else {
        exists|d: Seq<char>, t: nat| #[trigger]
            shows_tenths(d, t) && is_near(t, 1024 * 1024, 10 * b) && s == d + "MB"@
    }
}

pub proof fn lemma_tenths(t: nat)
    ensures
        shows_tenths(tenths_text(t), t),
{
    reveal_strlit(".");
    let d = decimal(t / 10);
    let s = tenths_text(t);
    lemma_decimal_reads_back(t / 10);
    assert(s.take(s.len() - 2) =~= d);
    assert(s.last() == digit(t % 10));
}

proof fn lemma_hundredths(t: nat)
    ensures
        shows_hundredths(hundredths_text(t), t),
{
    reveal_strlit(".");
    let d = decimal(t / 100);
    let s = hundredths_text(t);
    lemma_decimal_reads_back(t / 100);
    assert(s.take(s.len() - 3) =~= d);
    assert(s[s.len() - 2] == digit((t / 10) % 10));
    assert(s.last() == digit(t % 10));
}

/// A span of time is shown as what it is, behind a plus sign, to the digit that is shown.
pub proof fn law_span_is_shown(span: nat)
    ensures
        duration_text(span).len() > 0,
        duration_text(span)[0] == '+',
        shows_span(duration_text(span).skip(1), span),
{
    reveal_strlit("+");
    reveal_strlit("ms");
    reveal_strlit("s");
    let s = duration_text(span).skip(1);
    if span < 1_000_000_000 {
        let d = decimal(span / 1_000_000);
        lemma_decimal_reads_back(span / 1_000_000);
        assert(s =~= d + "ms"@);
    } else {
        let n = seconds(span) * 10;
        let t = half_even(n, ONE_SECOND as nat);
        let d = tenths_text(t);
        law_seconds_are_near(span);
        law_half_even_is_near(n, ONE_SECOND as nat);
        lemma_tenths(t);
        assert(s =~= d + "s"@);
        assert(is_near(t, 100_000_000, span));
        assert(shows_tenths(d, t));
    }
}

/// A span of time in the log file is shown as what it is, to a hundredth of a second.
pub proof fn law_seconds_are_shown(span: nat)
    ensures
        exists|t: nat| #[trigger]
            shows_hundredths(seconds_text(span), t) && is_near(t, 10_000_000, span),
{
    let n = seconds(span) * 100;
    let t = half_even(n, ONE_SECOND as nat);
    law_seconds_are_near(span);
    law_half_even_is_near(n, ONE_SECOND as nat);
    lemma_hundredths(t);
    assert(shows_hundredths(seconds_text(span), t) && is_near(t, 10_000_000, span));
}

/// A size is shown as what it is, to the digit that is shown.
pub proof fn law_size_is_shown(b: nat)
    ensures
        shows_size(bytes_text(b), b),
{
    if b < 1024 {
        lemma_decimal_reads_back(b);
        assert(bytes_text(b) == decimal(b) + "B"@);
    } else if b < 1024 * 1024 {
        let t = half_even(b * 10, 1024);
        law_half_even_is_near(b * 10, 1024);
        lemma_tenths(t);
        assert(shows_tenths(tenths_text(t), t) && is_near(t, 1024, 10 * b));
    } else {
        let r = rounded(b, DOUBLE as nat);
        let t = half_even(r * 10, 1024 * 1024);
        law_rounded_is_near(b, DOUBLE as nat);
        law_half_even_is_near(r * 10, 1024 * 1024);
        lemma_tenths(t);
        assert(shows_tenths(tenths_text(t), t) && is_near(t, 1024 * 1024, 10 * b));
    }
}

// ---------------------------------------------------------------------------
// Addresses
// ---------------------------------------------------------------------------

/// The host and the path that `reqwest::Url::parse` finds in an address, if it is one. An
/// address may have no host.
pub uninterp spec fn url_parts(address: Seq<char>) -> Option<(Option<Seq<char>>, Seq<char>)>;

/// Whether a text cannot begin with a scheme: it begins with a square bracket, or a slash comes
/// before any colon.
pub open spec fn lacks_scheme(s: Seq<char>) -> bool {
    ||| s.len() > 0 && s[0] == '['
    ||| char_at_or_end(s, '/') < s.len() && char_at_or_end(s, '/') < char_at_or_end(s, ':')
}

/// Whether a text has the form of a host: in square brackets, or without a colon.
pub open spec fn is_host(s: Seq<char>) -> bool {
    (s.len() > 0 && s[0] == '[') || forall|i: int| 0 <= i < s.len() ==> s[i] != ':'
}

/// Calls `reqwest::Url::parse`, and `host_str` and `path` on what it returns. What they return
/// is a function of the address. A text that cannot begin with a scheme is no address, and only
/// a host in square brackets holds a colon. Which other texts are addresses, and what their parts
/// are, is not said.
#[verifier::external_body]
pub(crate) fn parse_url(address: &str) -> (r: Option<(Option<String>, String)>)
    ensures
        (match r {
            Some(parts) => url_parts(address@) == Some((opt_string(parts.0), parts.1@)),
            None => url_parts(address@) is None,
        }),
        lacks_scheme(address@) ==> r is None,
        r matches Some(parts) ==> (parts.0 matches Some(host) ==> is_host(host@)),
{
    match reqwest::Url::parse(address) {
        Ok(url) => Some((url.host_str().map(String::from), url.path().to_owned())),
        Err(_) => None,
    }
}

/// A host without the `open.` or `api.` that it may begin with.
pub open spec fn short_host(host: Seq<char>) -> Seq<char> {
    if starts_with(host, "open."@) {
        host.skip(5)
    } else if starts_with(host, "api."@) {
        host.skip(4)
    } else {
        host
    }
}

/// The parts that are not empty.
pub open spec fn filled(parts: Seq<Seq<char>>) -> Seq<Seq<char>>
    decreases parts.len(),
{
    if parts.len() == 0 {
        seq![]
    } else if parts.last().len() == 0 {
        filled(parts.drop_last())
    } else {
        filled(parts.drop_last()).push(parts.last())
    }
}

/// The short form of an address: the short host, and the last two segments of the path.
pub open spec fn short_address(host: Option<Seq<char>>, path: Seq<char>) -> Seq<char> {
    short_host(
        match host {
            Some(h) => h,
            None => "unknown"@,
        },
    ) + "/"@ + join(last_of(filled(split(path, '/')), 2), "/"@)
}

/// The short form of what may be an address. What is none stands for itself.
pub open spec fn short_upstream(address: Seq<char>) -> Seq<char> {
    match url_parts(address) {
        Some((host, path)) => short_address(host, path),
        None => address,
    }
}

fn shorten_host(host: &str) -> (r: String)
    ensures
        r@ == short_host(host@),
{
    let cs = chars_of(host);
    proof {
        reveal_strlit("open.");
        reveal_strlit("api.");
    }
    let from: usize = if starts_with_text(host, "open.") {
        5
    } else if starts_with_text(host, "api.") {
        4
    } else {
        0
    };
    assert(host@.skip(0) =~= host@);
    assert(cs@.subrange(from as int, cs@.len() as int) =~= host@.skip(from as int));
    text_of(vstd::slice::slice_subrange(cs.as_slice(), from, cs.len()))
}

/// The short form of the address with the given host and path.
pub fn shorten_parts(host: Option<String>, path: &str) -> (r: String)
    ensures
        r@ == short_address(opt_string(host), path@),
{
    let full = match host {
        Some(h) => h,
        None => "unknown".to_owned(),
    };
    let mut out = shorten_host(full.as_str());
    let pieces = split_chars(chars_of(path).as_slice(), '/');
    let ghost all = pieces.deep_view();
    let mut segments: Vec<String> = Vec::new();
    assert(all.take(0) =~= Seq::<Seq<char>>::empty());
    assert(segments.deep_view() =~= Seq::<Seq<char>>::empty());
    for i in 0..pieces.len()
        invariant
            all == pieces.deep_view(),
            segments.deep_view() == filled(all.take(i as int)),
    {
        let ghost before = segments.deep_view();
        proof {
            assert(all.take(i + 1).drop_last() =~= all.take(i as int));
            assert(all.take(i + 1).last() == pieces[i as int]@);
        }
        if pieces[i].as_str().unicode_len() > 0 {
            segments.push(pieces[i].clone());
            assert(segments.deep_view() =~= before.push(pieces[i as int]@));
        }
    }
    assert(all.take(all.len() as int) =~= all);
    let last = keep_last(&segments, 2);
    out.append("/");
    out.append(join_texts(&last, "/").as_str());
    out
}

/// A short form has no scheme.
proof fn lemma_short_address_lacks_scheme(host: Option<Seq<char>>, path: Seq<char>)
    requires
        host matches Some(h) ==> is_host(h),
    ensures
        lacks_scheme(short_address(host, path)),
{
    let s = short_address(host, path);
    let full = match host {
        Some(h) => h,
        None => "unknown"@,
    };
    let h = short_host(full);
    reveal_strlit("unknown");
    reveal_strlit("open.");
    reveal_strlit("api.");
    reveal_strlit("/");
    assert(s[h.len() as int] == '/');
    if full.len() > 0 && full[0] == '[' {
        assert(starts_with(full, "open."@) ==> full.take(5)[0] == full[0]);
        assert(starts_with(full, "api."@) ==> full.take(4)[0] == full[0]);
        assert(s[0] == '[');
    } else {
        lemma_char_at_or_end(s, '/');
        lemma_char_at_or_end(s, ':');
        let k = full.len() - h.len();
        assert(h =~= full.skip(k));
        assert forall|i: int| 0 <= i <= h.len() implies s[i] != ':' by {
            if i < h.len() {
                assert(s[i] == full[k + i]);
            }
        }
    }
}

/// What shortening an address gives: its short form. A text that cannot begin with a scheme stays
/// as it is, and so does one that is no address; anything else loses its scheme.
pub open spec fn shortened(address: Seq<char>, short: Seq<char>) -> bool {
    &&& short == short_upstream(address)
    &&& lacks_scheme(address) ==> short == address
    &&& short == address || lacks_scheme(short)
}

/// Shortens an address for the terminal and for summaries: the host without `open.` or `api.`,
/// and the last two segments of the path. What is no address stays as it is.
pub fn shorten_upstream(full_url: &str) -> (r: String)
    ensures
        r@ == short_upstream(full_url@),
        shortened(full_url@, r@),
{
    match parse_url(full_url) {
        Some((host, path)) => {
            proof {
                lemma_short_address_lacks_scheme(opt_string(host), path@);
            }
            shorten_parts(host, path.as_str())
        },
        None => full_url.to_owned(),
    }
}

/// Shortening a short form changes nothing.
pub proof fn law_short_form_stays(address: Seq<char>, short: Seq<char>, again: Seq<char>)
    requires
        shortened(address, short),
        shortened(short, again),
    ensures
        again == short,
{
}

// ---------------------------------------------------------------------------
// Request ids
// ---------------------------------------------------------------------------

/// Whether `c` is a hexadecimal digit, upper or lower case.
pub open spec fn is_hex_digit(c: char) -> bool {
    '0' <= c <= '9' || 'a' <= c <= 'f' || 'A' <= c <= 'F'
}

/// Whether `s` begins with a request id: six hexadecimal digits in square brackets.
pub open spec fn begins_with_id(s: Seq<char>) -> bool {
    &&& s.len() >= 8
    &&& s[0] == '['
    &&& s[7] == ']'
    &&& forall|i: int| 1 <= i < 7 ==> is_hex_digit(#[trigger] s[i])
}

/// `s` with its request ids in cyan.
pub open spec fn colored(s: Seq<char>) -> Seq<char>
    decreases s.len(),
{
    if s.len() == 0 {
        seq![]
    } else if begins_with_id(s) {
        "\x1b[36m"@ + s.take(8) + "\x1b[0m"@ + colored(s.skip(8))
    } else {
        seq![s[0]] + colored(s.skip(1))
    }
}

fn has_id_at(s: &[char], at: usize) -> (r: bool)
    requires
        at <= s@.len(),
    ensures
        r == begins_with_id(s@.skip(at as int)),
{
    let ghost t = s@.skip(at as int);
    let n = s.len();
    if n - at < 8 || s[at] != '[' || s[at + 7] != ']' {
        assert(t.len() >= 8 ==> t[0] == s@[at as int] && t[7] == s@[at + 7]);
        return false;
    }
    for i in 1..7usize
        invariant
            at + 8 <= n,
            n == s@.len(),
            t == s@.skip(at as int),
            forall|j: int| 1 <= j < i ==> is_hex_digit(#[trigger] t[j]),
    {
        let c = s[at + i];
        assert(t[i as int] == c);
        if !(('0' <= c && c <= '9') || ('a' <= c && c <= 'f') || ('A' <= c && c <= 'F')) {
            return false;
        }
    }
    true
}

/// Puts the request ids of a line in cyan, so that the lines of one request group visually.
pub fn colorize_req_ids(line: &str) -> (r: String)
    ensures
        r@ == colored(line@),
{
    let cs = chars_of(line);
    let s = cs.as_slice();
    let mut out = "".to_owned();
    let mut at: usize = 0;
    proof {
        reveal_strlit("");
        assert(s@.skip(0) =~= s@);
        assert(out@ + colored(s@) =~= colored(s@));
    }
    while at < s.len()
        invariant
            at <= s@.len(),
            out@ + colored(s@.skip(at as int)) == colored(s@),
        decreases s@.len() - at,
    {
        let ghost rest = s@.skip(at as int);
        let ghost before = out@;
        if has_id_at(s, at) {
            out.append("\x1b[36m");
            out.append(text_of(vstd::slice::slice_subrange(s, at, at + 8)).as_str());
            out.append("\x1b[0m");
            proof {
                assert(s@.subrange(at as int, at + 8) =~= rest.take(8));
                assert(rest.skip(8) =~= s@.skip(at + 8));
                assert(out@ + colored(rest.skip(8)) =~= before + colored(rest));
            }
            at += 8;
        } else {
            out.push(s[at]);
            proof {
                assert(rest.skip(1) =~= s@.skip(at + 1));
                assert(out@ + colored(rest.skip(1)) =~= before + colored(rest));
            }
            at += 1;
        }
    }
    assert(s@.skip(at as int) =~= Seq::<char>::empty());
    assert(out@ + colored(s@.skip(at as int)) =~= out@);
    out
}

/// A line without a request id is not changed.
pub proof fn law_line_without_ids_is_kept(s: Seq<char>)
    requires
        forall|i: int| 0 <= i < s.len() ==> !begins_with_id(#[trigger] s.skip(i)),
    ensures
        colored(s) == s,
    decreases s.len(),
{
    if s.len() > 0 {
        assert(s.skip(0) =~= s);
        let t = s.skip(1);
        assert forall|i: int| 0 <= i < t.len() implies !begins_with_id(#[trigger] t.skip(i)) by {
            assert(t.skip(i) =~= s.skip(i + 1));
        }
        law_line_without_ids_is_kept(t);
        assert(seq![s[0]] + t =~= s);
    }
}

/// A request id in a line is put in cyan, as it is; what stands before the first bracket stays,
/// and what stands behind is colored in turn.
pub proof fn law_id_is_colored(a: Seq<char>, id: Seq<char>, b: Seq<char>)
    requires
        forall|i: int| 0 <= i < a.len() ==> a[i] != '[',
        id.len() == 6,
        forall|i: int|
            0 <= i < 6 ==> '0' <= #[trigger] id[i] <= '9' || 'a' <= id[i] <= 'f' || 'A' <= id[i]
                <= 'F',
    ensures
        colored(a + (seq!['['] + id + seq![']']) + b) == a + "\x1b[36m"@ + (seq!['['] + id
            + seq![']']) + "\x1b[0m"@ + colored(b),
    decreases a.len(),
{
    let tag = seq!['['] + id + seq![']'];
    let s = a + tag + b;
    if a.len() == 0 {
        assert(s =~= tag + b);
        assert forall|i: int| 1 <= i < 7 implies is_hex_digit(#[trigger] s[i]) by {
            assert(s[i] == id[i - 1]);
        }
        assert(s.take(8) =~= tag);
        assert(s.skip(8) =~= b);
        assert(a + "\x1b[36m"@ + tag + "\x1b[0m"@ + colored(b) =~= "\x1b[36m"@ + tag + "\x1b[0m"@
            + colored(b));
    } else {
        let rest = a.skip(1);
        assert(s[0] == a[0]);
        assert(s.skip(1) =~= rest + tag + b);
        law_id_is_colored(rest, id, b);
        assert(seq![a[0]] + (rest + "\x1b[36m"@ + tag + "\x1b[0m"@ + colored(b)) =~= a
            + "\x1b[36m"@ + tag + "\x1b[0m"@ + colored(b));
    }
}

/// The short form of an address has the host without `open.` or `api.`.
pub proof fn law_short_host(host: Seq<char>)
    ensures
        short_host("open."@ + host) == host,
        short_host("api."@ + host) == host,
        !starts_with(host, "open."@) && !starts_with(host, "api."@) ==> short_host(host) == host,
{
    reveal_strlit("open.");
    reveal_strlit("api.");
    let a = "open."@ + host;
    let b = "api."@ + host;
    assert(a.take(5) =~= "open."@);
    assert(a.skip(5) =~= host);
    assert(b.take(4) =~= "api."@);
    assert(b.skip(4) =~= host);
    if starts_with(b, "open."@) {
        assert(b.take(5)[0] == b[0]);
    }
}

/// Whether a text is a segment of a path: not empty, and without a slash.
pub open spec fn is_segment(s: Seq<char>) -> bool {
    s.len() > 0 && forall|i: int| 0 <= i < s.len() ==> s[i] != '/'
}

/// The short form of an address ends with the last two segments of its path.
pub proof fn law_short_form_keeps_two_segments(
    host: Seq<char>,
    front: Seq<char>,
    a: Seq<char>,
    b: Seq<char>,
)
    requires
        is_segment(a),
        is_segment(b),
    ensures
        short_address(Some(host), front + "/"@ + a + "/"@ + b) == short_host(host) + "/"@ + (a
            + "/"@ + b),
{
    reveal_strlit("/");
    let path = front + "/"@ + a + "/"@ + b;
    lemma_split_behind(front, a + "/"@ + b);
    lemma_split_behind(a, b);
    lemma_split_one(a);
    lemma_split_one(b);
    assert(path =~= front + "/"@ + (a + "/"@ + b));
    let before = split(front, '/');
    let all = split(path, '/');
    assert(split(a + "/"@ + b, '/') =~= seq![a, b]);
    assert(all =~= before + seq![a, b]);
    assert(all.drop_last() =~= before + seq![a]);
    assert(all.drop_last().drop_last() =~= before);
    let f = filled(before);
    assert(all.last() == b && all.drop_last().last() == a);
    assert(filled(all.drop_last()) == f.push(a));
    assert(filled(all) == f.push(a).push(b));
    assert(last_of(filled(all), 2) =~= seq![a, b]);
    assert(seq![a, b].drop_last() =~= seq![a]);
    reveal_with_fuel(join, 3);
}

proof fn lemma_split_one(s: Seq<char>)
    requires
        is_segment(s),
    ensures
        split(s, '/') == seq![s],
{
    lemma_char_at_or_end(s, '/');
    let i = char_at_or_end(s, '/');
    if i < s.len() {
        assert(s[i] == '/');
    }
}

proof fn lemma_split_behind(a: Seq<char>, b: Seq<char>)
    ensures
        split(a + "/"@ + b, '/') == split(a, '/') + split(b, '/'),
    decreases a.len(),
{
    reveal_strlit("/");
    let s = a + "/"@ + b;
    lemma_char_at_or_end(a, '/');
    lemma_char_at_or_end(s, '/');
    let i = char_at_or_end(a, '/');
    assert forall|j: int| 0 <= j < i implies s[j] != '/' by {
        assert(s[j] == a[j]);
    }
    assert(s[i] == '/');
    lemma_char_at_or_end_unique(s, '/', i);
    assert(s.take(i) =~= a.take(i));
    if i >= a.len() {
        assert(a.take(i) =~= a);
        assert(s.skip(i + 1) =~= b);
    } else {
        let rest = a.skip(i + 1);
        assert(s.skip(i + 1) =~= rest + "/"@ + b);
        lemma_split_behind(rest, b);
        assert(split(s, '/') =~= split(a, '/') + split(b, '/'));
    }
}

/// A text without an id in brackets is not colored.
pub proof fn law_other_text_is_not_colored(s: Seq<char>)
    requires
        forall|i: int|
            0 <= i && i + 7 < s.len() && #[trigger] s[i] == '[' && s[i + 7] == ']' ==> exists|k: int|
                i < k < i + 7 && !is_hex_digit(#[trigger] s[k]),
    ensures
        colored(s) == s,
    decreases s.len(),
{
    if s.len() > 0 {
        if begins_with_id(s) {
            assert(s[0] == '[' && s[7] == ']');
            let k = choose|k: int| 0 < k < 7 && !is_hex_digit(#[trigger] s[k]);
            assert(is_hex_digit(s[k]));
        }
        let t = s.skip(1);
        assert forall|i: int|
            0 <= i && i + 7 < t.len() && #[trigger] t[i] == '[' && t[i + 7]
                == ']' implies exists|k: int| i < k < i + 7 && !is_hex_digit(#[trigger] t[k]) by {
            assert(s[i + 1] == '[' && s[i + 1 + 7] == ']');
            let k = choose|k: int| i + 1 < k < i + 1 + 7 && !is_hex_digit(#[trigger] s[k]);
            assert(!is_hex_digit(t[k - 1]));
        }
        law_other_text_is_not_colored(t);
        assert(seq![s[0]] + t =~= s);
    }
}

} // verus!
