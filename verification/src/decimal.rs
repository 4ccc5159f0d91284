//! Numbers as text: decimal and hexadecimal digits.
use vstd::prelude::*;

verus! {

/// The decimal digit of value `d`.
pub open spec fn digit(d: nat) -> char {
    (48 + d) as char
}

/// The decimal digits of `n`, without leading zeros.
pub open spec fn decimal(n: nat) -> Seq<char>
    decreases n,
{
    if n < 10 {
        seq![digit(n)]
    } else {
        decimal(n / 10).push(digit(n % 10))
    }
}

/// The lower-case hexadecimal digit of value `d`.
pub open spec fn hex_digit(d: nat) -> char {
    if d < 10 {
        digit(d)
    } else {
        (87 + d) as char
    }
}

/// The last `width` hexadecimal digits of `n`.
pub open spec fn hex(n: nat, width: nat) -> Seq<char>
    decreases width,
{
    if width == 0 {
        seq![]
    } else {
        hex(n / 16, (width - 1) as nat).push(hex_digit(n % 16))
    }
}

/// The value that a run of decimal digits denotes.
pub open spec fn decimal_value(s: Seq<char>) -> nat
    decreases s.len(),
{
    if s.len() == 0 {
        0
    } else {
        10 * decimal_value(s.drop_last()) + digit_value(s.last())
    }
}

/// Whether `c` is one of the ten decimal digits.
pub open spec fn is_digit(c: char) -> bool {
    '0' <= c <= '9'
}

/// The value of a decimal digit.
pub open spec fn digit_value(c: char) -> nat
    recommends
        is_digit(c),
{
    (c as nat - 48) as nat
}

/// Whether `s` is a non-empty run of decimal digits.
pub open spec fn all_digits(s: Seq<char>) -> bool {
    s.len() > 0 && forall|i: int| 0 <= i < s.len() ==> is_digit(#[trigger] s[i])
}

/// The digits that `decimal` writes are read back as the number.
pub proof fn lemma_decimal_reads_back(n: nat)
    ensures
        all_digits(decimal(n)),
        decimal_value(decimal(n)) == n,
    decreases n,
{
    reveal_with_fuel(decimal_value, 2);
    if n >= 10 {
        lemma_decimal_reads_back(n / 10);
        assert(decimal(n).drop_last() =~= decimal(n / 10));
        assert(decimal(n).last() == digit(n % 10));
    } else {
        assert(decimal(n).drop_last() =~= Seq::<char>::empty());
    }
}

/// The decimal digits of `n`.
pub fn decimal_text(n: u128) -> (r: String)
    ensures
        r@ == decimal(n as nat),
    decreases n,
{
    let d: u8 = (n % 10) as u8;
    if n < 10 {
        let mut out = String::new();
        out.push((48 + d) as char);
        assert(out@ =~= seq![digit(n as nat)]);
        out
    } else {
        let mut out = decimal_text(n / 10);
        out.push((48 + d) as char);
        out
    }
}

/// The last `width` hexadecimal digits of `n`.
pub fn hex_text(n: u32, width: usize) -> (r: String)
    ensures
        r@ == hex(n as nat, width as nat),
    decreases width,
{
    if width == 0 {
        return String::new();
    }
    let mut out = hex_text(n / 16, width - 1);
    let d: u8 = (n % 16) as u8;
    if d < 10 {
        out.push((48 + d) as char);
    } else {
        out.push((87 + d) as char);
    }
    out
}

// ---------------------------------------------------------------------------
// Reading numbers
// ---------------------------------------------------------------------------

/// The digits of a number that may begin with a plus sign.
pub open spec fn unsigned_digits(s: Seq<char>) -> Seq<char> {
    if s.len() > 0 && s[0] == '+' {
        s.skip(1)
    } else {
        s
    }
}

/// The number that a text denotes: a run of decimal digits, with or without a plus sign, of a
/// value not above `max`.
pub open spec fn parsed(s: Seq<char>, max: nat) -> Option<nat> {
    let digits = unsigned_digits(s);
    if all_digits(digits) && decimal_value(digits) <= max {
        Some(decimal_value(digits))
    } else {
        None
    }
}

proof fn lemma_prefix_is_not_greater(s: Seq<char>, k: int)
    requires
        0 <= k <= s.len(),
    ensures
        decimal_value(s.take(k)) <= decimal_value(s),
    decreases s.len(),
{
    if k < s.len() {
        lemma_prefix_is_not_greater(s.drop_last(), k);
        assert(s.drop_last().take(k) =~= s.take(k));
    } else {
        assert(s.take(k) =~= s);
    }
}

/// What `decimal` writes is read as the number.
pub proof fn lemma_decimal_is_parsed(n: nat, max: nat)
    requires
        n <= max,
    ensures
        parsed(decimal(n), max) == Some(n),
{
    lemma_decimal_reads_back(n);
    assert(is_digit(decimal(n)[0]));
}

/// Reads a number not above `max`.
pub fn parse_unsigned(s: &[char], max: u64) -> (r: Option<u64>)
    ensures
        (match r {
            Some(n) => parsed(s@, max as nat) == Some(n as nat),
            None => parsed(s@, max as nat) is None,
        }),
{
    let n = s.len();
    let from: usize = if n > 0 && s[0] == '+' {
        1
    } else {
        0
    };
    let ghost digits = unsigned_digits(s@);
    assert(from == 0 ==> digits == s@);
    if from >= n {
        return None;
    }
    let mut value: u128 = 0;
    let mut i: usize = from;
    assert(digits.take(0) =~= Seq::<char>::empty());
    while i < n
        invariant
            from <= i <= n,
            n == s@.len(),
            digits.len() == n - from,
            forall|j: int| 0 <= j < digits.len() ==> digits[j] == s@[from + j],
            digits == unsigned_digits(s@),
            forall|j: int| 0 <= j < i - from ==> is_digit(#[trigger] digits[j]),
            value == decimal_value(digits.take(i - from)),
            value <= max,
        decreases n - i,
    {
        let c = s[i];
        assert(c == digits[i - from]);
        if !('0' <= c && c <= '9') {
            return None;
        }
        proof {
            assert(digits.take(i - from + 1).drop_last() =~= digits.take(i - from));
            lemma_prefix_is_not_greater(digits, i - from + 1);
        }
        value = value * 10 + (c as u32 - 48) as u128;
        if value > max as u128 {
            return None;
        }
        i += 1;
    }
    assert(digits.take(n - from) =~= digits);
    Some(value as u64)
}

/// A number is written without zeros in front of it.
pub proof fn law_decimal_begins_with_no_zero(n: nat)
    ensures
        n == 0 ==> decimal(n) == seq!['0'],
        n > 0 ==> decimal(n)[0] != '0',
    decreases n,
{
    if n >= 10 {
        law_decimal_begins_with_no_zero(n / 10);
        lemma_decimal_reads_back(n / 10);
        assert(decimal(n)[0] == decimal(n / 10)[0]);
    }
}

/// The value of hexadecimal digits.
pub open spec fn hex_value(s: Seq<char>) -> nat
    decreases s.len(),
{
    if s.len() == 0 {
        0
    } else {
        16 * hex_value(s.drop_last()) + if is_digit(s.last()) {
            digit_value(s.last())
        } else {
            (s.last() as nat - 87) as nat
        }
    }
}

/// Six hexadecimal digits tell every number that they can hold.
pub proof fn law_hex_reads_back(n: nat)
    requires
        n < 0x100_0000,
    ensures
        hex_value(hex(n, 6)) == n,
{
    lemma_hex_reads_back(n / 0x10_0000, 1);
    lemma_hex_reads_back(n / 0x1_0000, 2);
    lemma_hex_reads_back(n / 0x1000, 3);
    lemma_hex_reads_back(n / 0x100, 4);
    lemma_hex_reads_back(n / 16, 5);
    lemma_hex_reads_back(n, 6);
    assert(n / 0x10_0000 / 16 == 0);
    assert(n / 0x1_0000 / 16 == n / 0x10_0000);
    assert(n / 0x1000 / 16 == n / 0x1_0000);
    assert(n / 0x100 / 16 == n / 0x1000);
    assert(n / 16 / 16 == n / 0x100);
}

proof fn lemma_hex_reads_back(n: nat, width: nat)
    requires
        width > 0,
    ensures
        hex_value(hex(n, width)) == 16 * hex_value(hex(n / 16, (width - 1) as nat)) + n % 16,
        hex_value(hex(0, 0)) == 0,
{
    let s = hex(n, width);
    assert(s.drop_last() =~= hex(n / 16, (width - 1) as nat));
    assert(s.last() == hex_digit(n % 16));
}

/// What is read as a number is digits, with at most a plus sign in front of them; every number in
/// digits that is not too large is read, and as what it is.
pub proof fn law_digits_are_read_as_a_number(s: Seq<char>, max: nat)
    ensures
        parsed(s, max) is Some ==> s.len() > 0 && parsed(s, max)->0 <= max && is_digit(s.last())
            && forall|i: int|
            0 <= i < s.len() ==> is_digit(#[trigger] s[i]) || (i == 0 && s[i] == '+'),
        all_digits(s) && decimal_value(s) <= max ==> parsed(s, max) == Some(decimal_value(s)),
        all_digits(s) && decimal_value(s) <= max ==> parsed(seq!['+'] + s, max) == Some(
            decimal_value(s),
        ),
        all_digits(s) && decimal_value(s) > max ==> parsed(s, max) is None,
{
    let plus = seq!['+'] + s;
    assert(plus.skip(1) =~= s);
    if all_digits(s) {
        assert(is_digit(s[0]));
    }
    if parsed(s, max) is Some {
        let d = unsigned_digits(s);
        assert(is_digit(d[d.len() - 1]));
        assert forall|i: int| 0 <= i < s.len() implies is_digit(#[trigger] s[i]) || (i == 0 && s[i]
            == '+') by {
            if s[0] == '+' {
                if i > 0 {
                    assert(s[i] == d[i - 1]);
                }
            } else {
                assert(s[i] == d[i]);
            }
        }
    }
}

} // verus!
