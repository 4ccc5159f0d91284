//! Spans of time, and the time of day as the log writes it.
use crate::decimal::is_digit;
use crate::rounding::{
    half_even, half_even_of, law_rounded_is_near, law_rounded_quotient_is_near, lemma_half_even,
    lemma_spacing, rounded, rounded_quotient, rounded_to, spacing_at,
};
use crate::text::{char_at_or_end, chars_of, lemma_char_at_or_end_unique, position_or_end, text_of};
use vstd::prelude::*;

verus! {

/// The significands of single precision are less than this.
pub const SINGLE: u128 = 0x100_0000;

/// Two to the 53rd: one second in the fixed-point format of [`seconds`].
pub const ONE_SECOND: u128 = 0x20_0000_0000_0000;

/// A span of time, in whole seconds and nanoseconds.
#[derive(Clone, Copy)]
pub struct Duration {
    secs: u64,
    nanos: u32,
}

/// The model of [`Duration`]: a number of nanoseconds.
impl View for Duration {
    type V = nat;

    closed spec fn view(&self) -> nat {
        (self.secs * 1_000_000_000 + self.nanos) as nat
    }
}

impl Duration {
    #[verifier::type_invariant]
    spec fn wf(self) -> bool {
        self.nanos < 1_000_000_000
    }

    /// The span of whole milliseconds.
    pub fn from_millis(ms: u64) -> (r: Self)
        ensures
            r@ == ms * 1_000_000,
    {
        Duration { secs: ms / 1000, nanos: ((ms % 1000) * 1_000_000) as u32 }
    }

    /// The span of whole seconds.
    pub fn from_secs(secs: u64) -> (r: Self)
        ensures
            r@ == secs * 1_000_000_000,
    {
        Duration { secs, nanos: 0 }
    }

    /// The span of `secs` seconds and `nanos` nanoseconds.
    pub fn new(secs: u64, nanos: u32) -> (r: Self)
        requires
            nanos < 1_000_000_000,
        ensures
            r@ == secs * 1_000_000_000 + nanos,
    {
        Duration { secs, nanos }
    }

    /// The whole seconds in the span.
    pub fn as_secs(&self) -> (r: u64)
        ensures
            r == self@ / 1_000_000_000,
    {
        proof {
            use_type_invariant(self);
        }
        self.secs
    }

    /// The nanoseconds beyond the whole seconds.
    pub fn subsec_nanos(&self) -> (r: u32)
        ensures
            r == self@ % 1_000_000_000,
    {
        proof {
            use_type_invariant(self);
        }
        self.nanos
    }

    /// The whole milliseconds in the span.
    pub fn as_millis(&self) -> (r: u128)
        ensures
            r == self@ / 1_000_000,
    {
        proof {
            use_type_invariant(self);
        }
        self.secs as u128 * 1000 + (self.nanos / 1_000_000) as u128
    }

    /// The nanoseconds in the span.
    pub fn as_nanos(&self) -> (r: u128)
        ensures
            r == self@,
            r < 0x1_0000_0000_0000_0000_0000_0000,
    {
        proof {
            use_type_invariant(self);
        }
        self.secs as u128 * 1_000_000_000 + self.nanos as u128
    }
}

/// The fraction of a second, in units of 2^-53 s, as a quotient in single precision.
pub open spec fn fraction(nanos: nat) -> nat {
    if nanos == 0 {
        0
    } else {
        rounded_quotient(
            rounded(nanos, SINGLE as nat) * ONE_SECOND as nat,
            1_000_000_000,
            SINGLE as nat,
        )
    }
}

/// A span of nanoseconds as seconds in single precision, in units of 2^-53 s: the seconds and
/// the fraction are converted one by one, then added.
pub open spec fn seconds(span: nat) -> nat {
    rounded(
        rounded(span / 1_000_000_000, SINGLE as nat) * ONE_SECOND as nat + fraction(
            span % 1_000_000_000,
        ),
        SINGLE as nat,
    )
}

/// A span in single precision is off by at most a few parts in sixteen million.
pub proof fn law_seconds_are_near(span: nat)
    ensures
        seconds(span) * 1_000_000_000 * 4_000_000 <= span * ONE_SECOND * 4_000_001,
        span * ONE_SECOND * 3_999_999 <= seconds(span) * 1_000_000_000 * 4_000_000,
{
    let limit: nat = SINGLE as nat;
    let w = span / 1_000_000_000;
    let f = span % 1_000_000_000;
    let rw = rounded(w, limit);
    let rf = rounded(f, limit);
    let n = rf * ONE_SECOND as nat;
    let q = fraction(f);
    let x = rw * ONE_SECOND as nat + q;
    let r = rounded(x, limit);
    law_rounded_is_near(w, limit);
    law_rounded_is_near(f, limit);
    law_rounded_is_near(x, limit);
    if f > 0 {
        assert(rf > 0);
        law_rounded_quotient_is_near(n, 1_000_000_000, limit);
    }
    assert(span == w * 1_000_000_000 + f);
    assert(r == seconds(span));
}

/// The fraction of a second in single precision.
fn fraction_of(nanos: u32) -> (r: u128)
    requires
        nanos < 1_000_000_000,
    ensures
        r == fraction(nanos as nat),
        r <= 0x80_0000_0000_0000,
{
    if nanos == 0 {
        return 0;
    }
    let n: u128 = rounded_to(nanos as u128, SINGLE) * ONE_SECOND;
    let q: u128 = n / 1_000_000_000;
    let step = spacing_at(q, SINGLE);
    proof {
        lemma_spacing(q as nat, SINGLE as nat);
        lemma_half_even(n as nat, 1_000_000_000 * step as nat);
        let h = half_even(n as nat, 1_000_000_000 * step as nat);
        assert(h * (1_000_000_000 * step) == (h * step) * 1_000_000_000) by (nonlinear_arith);
    }
    half_even_of(n, 1_000_000_000 * step) * step
}

/// The seconds of a span in single precision, in units of 2^-53 s.
pub fn seconds_of(d: &Duration) -> (r: u128)
    ensures
        r == seconds(d@),
        r <= 0x100_0000_0000_0000_0000_0000_0000_0000,
{
    let whole = rounded_to(d.as_secs() as u128, SINGLE) * ONE_SECOND;
    let part = fraction_of(d.subsec_nanos());
    rounded_to(whole + part, SINGLE)
}

// ---------------------------------------------------------------------------
// The time of day
// ---------------------------------------------------------------------------

/// Whether a text has the form `HH:MM:SS.mmm`.
pub open spec fn is_clock(s: Seq<char>) -> bool {
    &&& s.len() == 12
    &&& s[2] == ':' && s[5] == ':' && s[8] == '.'
    &&& forall|i: int| 0 <= i < 12 && i != 2 && i != 5 && i != 8 ==> is_digit(#[trigger] s[i])
}

/// Whether a text is a year: four digits or more, maybe behind a sign.
pub open spec fn is_year(s: Seq<char>) -> bool {
    let n: int = if s.len() > 0 && (s[0] == '+' || s[0] == '-') {
        1
    } else {
        0
    };
    &&& s.len() >= n + 4
    &&& forall|i: int| n <= i < s.len() ==> is_digit(#[trigger] s[i])
}

/// Whether a text has the form `YYYY-MM-DD`.
pub open spec fn is_date(s: Seq<char>) -> bool {
    let n = s.len() - 6;
    &&& n >= 0
    &&& is_year(s.take(n))
    &&& s[n] == '-' && is_digit(s[n + 1]) && is_digit(s[n + 2])
    &&& s[n + 3] == '-' && is_digit(s[n + 4]) && is_digit(s[n + 5])
}

/// Whether a text has the form `YYYY-MM-DD HH:MM:SS.mmm`.
pub open spec fn is_stamp(s: Seq<char>) -> bool {
    let n = s.len() - 13;
    &&& n >= 0
    &&& is_date(s.take(n))
    &&& s[n] == ' '
    &&& is_clock(s.skip(n + 1))
}

/// A date holds digits and signs only.
pub proof fn lemma_date(s: Seq<char>)
    requires
        is_date(s),
    ensures
        s.len() >= 10,
        forall|i: int|
            0 <= i < s.len() ==> is_digit(#[trigger] s[i]) || s[i] == '-' || s[i] == '+',
{
    let n = s.len() - 6;
    let year = s.take(n);
    assert forall|i: int| 0 <= i < s.len() implies is_digit(#[trigger] s[i]) || s[i] == '-' || s[i]
        == '+' by {
        if i < n {
            assert(year[i] == s[i]);
        }
    }
}

/// What stands in a stamp, character by character.
pub proof fn lemma_stamp(s: Seq<char>)
    requires
        is_stamp(s),
    ensures
        s.len() >= 23,
        s[s.len() - 13] == ' ',
        is_clock(s.skip(s.len() - 12)),
        forall|i: int|
            0 <= i < s.len() - 13 ==> is_digit(#[trigger] s[i]) || s[i] == '-' || s[i] == '+',
{
    let date = s.take(s.len() - 13);
    lemma_date(date);
    assert forall|i: int| 0 <= i < s.len() - 13 implies is_digit(#[trigger] s[i]) || s[i] == '-'
        || s[i] == '+' by {
        assert(date[i] == s[i]);
    }
}

/// The time of day in a stamp: what follows the first space.
pub open spec fn clock_text(stamp: Seq<char>) -> Seq<char> {
    let i = char_at_or_end(stamp, ' ');
    if i < stamp.len() {
        stamp.skip(i + 1)
    } else {
        stamp
    }
}

/// The time of day in a stamp has twelve characters, `HH:MM:SS.mmm`.
pub proof fn law_clock_of_stamp(stamp: Seq<char>)
    requires
        is_stamp(stamp),
    ensures
        is_clock(clock_text(stamp)),
        char_at_or_end(stamp, ' ') == stamp.len() - 13,
{
    lemma_stamp(stamp);
    lemma_char_at_or_end_unique(stamp, ' ', stamp.len() - 13);
}

/// The date and the time of day, in the time zone of the machine: `std::time::SystemTime::now`
/// as a `chrono::DateTime`, written by `DateTime::format` as `%Y-%m-%d %H:%M:%S%.3f`. A year
/// outside 0 to 9999 has a sign, and as many digits as it needs, but four at least. Only the form
/// of the text is claimed, since the time differs from call to call.
#[verifier::external_body]
pub(crate) fn local_stamp() -> (r: String)
    ensures
        is_stamp(r@),
{
    let now = chrono::DateTime::<chrono::Local>::from(std::time::SystemTime::now());
    now.format("%Y-%m-%d %H:%M:%S%.3f").to_string()
}

/// The time of day in a stamp.
pub fn clock_of(stamp: &str) -> (r: String)
    ensures
        r@ == clock_text(stamp@),
{
    let cs = chars_of(stamp);
    let i = position_or_end(cs.as_slice(), ' ');
    if i < cs.len() {
        assert(cs@.subrange(i + 1, cs@.len() as int) =~= cs@.skip(i + 1));
        text_of(vstd::slice::slice_subrange(cs.as_slice(), i + 1, cs.len()))
    } else {
        stamp.to_owned()
    }
}

} // verus!
