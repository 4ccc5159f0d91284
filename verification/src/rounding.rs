//! Rounding to the nearest, ties to even: as a quotient, and to the numbers that a binary
//! floating-point format can hold.
use crate::decimal::{decimal, decimal_text, digit};
use vstd::prelude::*;

verus! {

/// The integer nearest to `n / d`. Of two that are equally near, the even one.
pub open spec fn half_even(n: nat, d: nat) -> nat {
    if 2 * (n % d) < d || (2 * (n % d) == d && (n / d) % 2 == 0) {
        n / d
    } else {
        n / d + 1
    }
}

/// The distance between neighbouring numbers, at `n`, of a binary format whose significand is
/// less than `limit`.
pub open spec fn spacing(n: nat, limit: nat) -> nat
    decreases n,
{
    if n < limit || limit < 2 {
        1
    } else {
        2 * spacing(n / 2, limit)
    }
}

/// The number nearest to `n` in a binary format whose significand is less than `limit`.
pub open spec fn rounded(n: nat, limit: nat) -> nat {
    half_even(n, spacing(n, limit)) * spacing(n, limit)
}

/// The number nearest to `n / d` in a binary format whose significand is less than `limit`,
/// for a quotient that is not less than `limit / 2`.
pub open spec fn rounded_quotient(n: nat, d: nat, limit: nat) -> nat {
    half_even(n, d * spacing(n / d, limit)) * spacing(n / d, limit)
}

/// A number of tenths, with one digit after the point.
pub open spec fn tenths_text(t: nat) -> Seq<char> {
    decimal(t / 10) + "."@ + seq![digit(t % 10)]
}

/// A number of hundredths, with two digits after the point.
pub open spec fn hundredths_text(t: nat) -> Seq<char> {
    decimal(t / 100) + "."@ + seq![digit((t / 10) % 10), digit(t % 10)]
}

/// The spacing at a positive number is positive and not more than the number.
pub proof fn lemma_spacing(n: nat, limit: nat)
    ensures
        0 < spacing(n, limit),
        spacing(n, limit) <= n || spacing(n, limit) == 1,
    decreases n,
{
    if n >= limit && limit >= 2 {
        lemma_spacing(n / 2, limit);
    }
}

/// The spacing is small next to the number.
pub proof fn lemma_spacing_is_small(n: nat, limit: nat)
    requires
        limit >= 2,
    ensures
        n >= limit ==> spacing(n, limit) * limit <= 2 * n,
    decreases n,
{
    if n >= limit {
        lemma_spacing_is_small(n / 2, limit);
        let half = spacing(n / 2, limit);
        assert(spacing(n, limit) * limit == 2 * (half * limit)) by (nonlinear_arith)
            requires
                spacing(n, limit) == 2 * half,
        ;
        if n / 2 < limit {
            assert(half * limit == limit) by (nonlinear_arith)
                requires
                    half == 1,
            ;
        }
    }
}

/// A rounded quotient is at most one above the quotient.
pub proof fn lemma_half_even(n: nat, d: nat)
    requires
        d > 0,
    ensures
        n / d <= half_even(n, d) <= n / d + 1,
        half_even(n, d) * d <= n + d,
        half_even(n, d) <= n + 1,
{
    assert((n / d + 1) * d <= n + d && (n / d) * d <= n && n / d <= n) by (nonlinear_arith)
        requires
            d > 0,
            n >= 0,
    ;
}

/// A rounded number lies between the half and the double of the number.
pub proof fn lemma_rounded(n: nat, limit: nat)
    ensures
        rounded(n, limit) <= 2 * n,
        n <= 2 * rounded(n, limit),
{
    let step = spacing(n, limit);
    lemma_spacing(n, limit);
    lemma_half_even(n, step);
    if step == 1 {
        assert(half_even(n, 1) == n);
    } else {
        assert(n <= 2 * (half_even(n, step) * step)) by (nonlinear_arith)
            requires
                n / step <= half_even(n, step),
                0 < step <= n,
        ;
    }
}

/// No integer is nearer to a quotient than the rounded one: it is off by at most a half.
pub proof fn law_half_even_is_near(n: nat, d: nat)
    requires
        d > 0,
    ensures
        2 * (half_even(n, d) * d) <= 2 * n + d,
        2 * n <= 2 * (half_even(n, d) * d) + d,
{
    let q = n / d;
    let r = n % d;
    assert(n == q * d + r && (q + 1) * d == q * d + d && r < d) by (nonlinear_arith)
        requires
            q == n / d,
            r == n % d,
            d > 0,
    ;
}

/// A rounded number is off by at most one part in `limit`.
pub proof fn law_rounded_is_near(n: nat, limit: nat)
    requires
        limit >= 2,
    ensures
        rounded(n, limit) * limit <= n * limit + n,
        n * limit <= rounded(n, limit) * limit + n,
{
    let step = spacing(n, limit);
    let r = rounded(n, limit);
    lemma_spacing(n, limit);
    lemma_spacing_is_small(n, limit);
    law_half_even_is_near(n, step);
    if n >= limit {
        assert(r * limit <= n * limit + n && n * limit <= r * limit + n) by (nonlinear_arith)
            requires
                2 * r <= 2 * n + step,
                2 * n <= 2 * r + step,
                step * limit <= 2 * n,
                limit >= 2,
        ;
    } else {
        assert(half_even(n, 1) == n);
        assert(r == n);
    }
}

/// A rounded quotient is off by at most one part in `limit`, where the quotient is not small.
pub proof fn law_rounded_quotient_is_near(n: nat, d: nat, limit: nat)
    requires
        limit >= 2,
        d > 0,
        d * limit <= 2 * n,
    ensures
        rounded_quotient(n, d, limit) * d * limit <= n * limit + n,
        n * limit <= rounded_quotient(n, d, limit) * d * limit + n,
{
    let q = n / d;
    let step = spacing(q, limit);
    let h = half_even(n, d * step);
    let f = h * step;
    lemma_spacing(q, limit);
    lemma_spacing_is_small(q, limit);
    assert(d * step > 0) by (nonlinear_arith)
        requires
            d > 0,
            step > 0,
    ;
    law_half_even_is_near(n, d * step);
    assert(h * (d * step) == f * d) by (nonlinear_arith)
        requires
            f == h * step,
    ;
    assert(d * step * limit <= 2 * n) by {
        if q >= limit {
            assert(d * step * limit <= 2 * n) by (nonlinear_arith)
                requires
                    step * limit <= 2 * q,
                    q == n / d,
                    d > 0,
            ;
        } else {
            assert(step == 1);
            assert(d * step * limit == d * limit) by (nonlinear_arith)
                requires
                    step == 1,
            ;
        }
    }
    assert(f * d * limit <= n * limit + n && n * limit <= f * d * limit + n) by (nonlinear_arith)
        requires
            2 * (f * d) <= 2 * n + d * step,
            2 * n <= 2 * (f * d) + d * step,
            d * step * limit <= 2 * n,
            limit >= 2,
    ;
}

/// A rounded quotient is off by at most one part in `limit`, and one.
pub proof fn law_rounded_quotient_is_close(n: nat, d: nat, limit: nat)
    requires
        limit >= 2,
        d > 0,
    ensures
        rounded_quotient(n, d, limit) * d * limit <= n * limit + n + d * limit,
        n * limit <= rounded_quotient(n, d, limit) * d * limit + n + d * limit,
{
    if d * limit <= 2 * n {
        law_rounded_quotient_is_near(n, d, limit);
        assert(d * limit >= 0) by (nonlinear_arith)
            requires
                d > 0,
                limit >= 2,
        ;
    } else {
        assert(n / d < limit) by (nonlinear_arith)
            requires
                2 * n < d * limit,
                d > 0,
                limit >= 2,
        ;
        assert(spacing(n / d, limit) == 1);
        assert(d * 1 == d);
        let h = half_even(n, d);
        assert(h * 1 == h);
        law_half_even_is_near(n, d);
        assert(h * d * limit <= n * limit + n + d * limit && n * limit <= h * d * limit + n + d
            * limit) by (nonlinear_arith)
            requires
                2 * (h * d) <= 2 * n + d,
                2 * n <= 2 * (h * d) + d,
                limit >= 2,
                n >= 0,
        ;
    }
}

/// The integer nearest to `n / d`.
pub fn half_even_of(n: u128, d: u128) -> (r: u128)
    requires
        0 < d,
        n < u128::MAX,
    ensures
        r == half_even(n as nat, d as nat),
{
    proof {
        lemma_half_even(n as nat, d as nat);
    }
    let q: u128 = n / d;
    let rest: u128 = n % d;
    if rest < d - rest || (rest == d - rest && q % 2 == 0) {
        q
    } else {
        q + 1
    }
}

/// The distance between neighbouring numbers at `n`.
pub fn spacing_at(n: u128, limit: u128) -> (r: u128)
    requires
        n < u128::MAX / 2,
    ensures
        r == spacing(n as nat, limit as nat),
    decreases n,
{
    if n < limit || limit < 2 {
        1
    } else {
        proof {
            lemma_spacing((n / 2) as nat, limit as nat);
        }
        2 * spacing_at(n / 2, limit)
    }
}

/// The number nearest to `n`.
pub fn rounded_to(n: u128, limit: u128) -> (r: u128)
    requires
        n < u128::MAX / 2,
    ensures
        r == rounded(n as nat, limit as nat),
        r <= 2 * n,
{
    let step = spacing_at(n, limit);
    proof {
        lemma_spacing(n as nat, limit as nat);
        lemma_rounded(n as nat, limit as nat);
    }
    half_even_of(n, step) * step
}

/// Writes a number of tenths.
pub fn tenths_of(t: u128) -> (r: String)
    ensures
        r@ == tenths_text(t as nat),
{
    let mut out = decimal_text(t / 10);
    out.append(".");
    let d: u8 = (t % 10) as u8;
    let ghost before = out@;
    out.push((48 + d) as char);
    assert(out@ =~= before + seq![digit(t as nat % 10)]);
    out
}

/// Writes a number of hundredths.
pub fn hundredths_of(t: u128) -> (r: String)
    ensures
        r@ == hundredths_text(t as nat),
{
    let mut out = decimal_text(t / 100);
    out.append(".");
    let tens: u8 = ((t / 10) % 10) as u8;
    let ones: u8 = (t % 10) as u8;
    let ghost before = out@;
    out.push((48 + tens) as char);
    out.push((48 + ones) as char);
    assert(out@ =~= before + seq![digit((t as nat / 10) % 10), digit(t as nat % 10)]);
    out
}

} // verus!
