//! Coverage percentages, computed exactly from integer counts and written
//! with two decimals.
//!
//! A percentage is `covered / total * 100`; it is rounded to hundredths of a
//! percent half-to-even on its exact rational value. Rounding a binary
//! floating-point approximation of that value instead can land on the other
//! side of an exact tie (97 of 800 is exactly 12.125%), so on such ties the
//! digits may differ from a float-based formatter's.
use vstd::prelude::*;

use crate::text::{dec, digit_char};

verus! {

/// `n / d` rounded to the nearest integer, ties to even (`n >= 0`, `d > 0`).
pub open spec fn round_half_even(n: int, d: int) -> int {
    let q = n / d;
    let r = n % d;
    if 2 * r > d {
        q + 1
    } else if 2 * r < d {
        q
    } else if q % 2 == 0 {
        q
    } else {
        q + 1
    }
}

/// Hundredths of a percent of `covered / total` (`total > 0`).
pub open spec fn pct_hundredths(covered: nat, total: nat) -> int {
    round_half_even((10000 * covered) as int, total as int)
}

/// Coverage in hundredths of a percent, rounded half to even; `None` when
/// nothing is measured.
pub open spec fn coverage_pct_of(covered: nat, total: nat) -> Option<u128> {
    if total == 0 {
        None
    } else {
        Some(pct_hundredths(covered, total) as u128)
    }
}

/// `h` hundredths written with two decimals: `12.34`.
pub open spec fn fixed2(h: nat) -> Seq<char> {
    dec(h / 100) + seq!['.', digit_char((h % 100) / 10), digit_char(h % 10)]
}

/// `covered / total` as a percentage with two decimals, `n/a` without a total.
pub open spec fn pct_text(covered: nat, total: nat) -> Seq<char> {
    if total == 0 {
        seq!['n', '/', 'a']
    } else {
        fixed2(pct_hundredths(covered, total) as nat) + seq!['%']
    }
}

/// The difference `head - base` of two percentages, in hundredths of a
/// percentage point, times `head_total * base_total`.
pub open spec fn delta_scaled(hc: nat, ht: nat, bc: nat, bt: nat) -> int {
    10000 * (hc * bt - bc * ht)
}

/// How a percentage-point delta is written: its sign, its magnitude rounded
/// to hundredths, and whether it reaches half a hundredth of a point either way.
#[derive(Debug, Clone, Copy, PartialEq, Eq, Structural)]
pub struct Delta {
    pub negative: bool,
    pub hundredths: u128,
    /// The delta is at least `+0.005` points.
    pub rises: bool,
    /// The delta is at most `-0.005` points.
    pub falls: bool,
    /// The delta is above `+0.005` points.
    pub exceeds_rise: bool,
    /// The delta is below `-0.005` points.
    pub exceeds_fall: bool,
}

/// The delta of `hc / ht` against `bc / bt` (both totals positive).
pub open spec fn delta_of(d: Delta, hc: nat, ht: nat, bc: nat, bt: nat) -> bool {
    let n = delta_scaled(hc, ht, bc, bt);
    let den = ht * bt;
    &&& d.negative == (n < 0)
    &&& d.hundredths == round_half_even(if n < 0 { -n } else { n }, den as int)
    &&& d.rises == (2 * n >= den)
    &&& d.falls == (2 * n <= -den)
    &&& d.exceeds_rise == (2 * n > den)
    &&& d.exceeds_fall == (2 * n < -den)
}

proof fn lemma_div_parts(n: int, d: int)
    requires
        d > 0,
        n >= 0,
    ensures
        n == d * (n / d) + n % d,
        0 <= n % d < d,
        n / d >= 0,
{
    assert(n == d * (n / d) + n % d) by (nonlinear_arith)
        requires
            d > 0,
    ;
    assert(0 <= n % d < d) by (nonlinear_arith)
        requires
            d > 0,
    ;
    assert(n / d >= 0) by (nonlinear_arith)
        requires
            d > 0,
            n >= 0,
    ;
}

/// `round_half_even(n, d)` from a floor `q` and remainder `r` of `n` by `d`.
proof fn lemma_round_from_parts(n: int, d: int, q: int, r: int)
    requires
        d > 0,
        n >= 0,
        n == d * q + r,
        0 <= r < d,
    ensures
        round_half_even(n, d) == if 2 * r > d {
            q + 1
        } else if 2 * r < d {
            q
        } else if q % 2 == 0 {
            q
        } else {
            q + 1
        },
{
    lemma_div_parts(n, d);
    let q0 = n / d;
    let r0 = n % d;
    assert(q0 == q && r0 == r) by (nonlinear_arith)
        requires
            d > 0,
            n == d * q + r,
            0 <= r < d,
            n == d * q0 + r0,
            0 <= r0 < d,
    ;
}

fn round_parts(q: u128, r: u128, d: u128) -> (h: u128)
    requires
        r < d,
        q < u128::MAX,
    ensures
        h == (if 2 * r > d {
            q + 1
        } else if 2 * r < d {
            q as int
        } else if q % 2 == 0 {
            q as int
        } else {
            q + 1
        }),
{
    let rest = d - r;
    if r > rest {
        q + 1
    } else if r < rest {
        q
    } else if q % 2 == 0 {
        q
    } else {
        q + 1
    }
}

/// Hundredths of a percent of `covered / total`, `total > 0`.
pub fn percent_hundredths(covered: u64, total: u64) -> (h: u128)
    requires
        total > 0,
    ensures
        h == pct_hundredths(covered as nat, total as nat),
{
    let n: u128 = 10000u128 * (covered as u128);
    let d: u128 = total as u128;
    let q = n / d;
    let r = n % d;
    proof {
        lemma_div_parts(n as int, d as int);
        lemma_round_from_parts(n as int, d as int, q as int, r as int);
        assert(q <= n) by (nonlinear_arith)
            requires
                d >= 1,
                q == n / d,
                n >= 0,
        ;
    }
    round_parts(q, r, d)
}

/// Appends `n` in decimal.
pub fn push_dec128(out: &mut Vec<char>, n: u128)
    ensures
        final(out)@ == old(out)@ + dec(n as nat),
    decreases n,
{
    if n >= 10 {
        push_dec128(out, n / 10);
    }
    let d = (n % 10) as u8;
    out.push((48u8 + d) as char);
    proof {
        assert(((48u8 + d) as char) == digit_char((n % 10) as nat));
    }
}

/// Appends `h` hundredths with two decimals.
pub fn push_fixed2(out: &mut Vec<char>, h: u128)
    ensures
        final(out)@ == old(out)@ + fixed2(h as nat),
{
    push_dec128(out, h / 100);
    out.push('.');
    let cents = h % 100;
    let tens = (cents / 10) as u8;
    let ones = (h % 10) as u8;
    out.push((48u8 + tens) as char);
    out.push((48u8 + ones) as char);
    proof {
        assert(((48u8 + tens) as char) == digit_char(((h % 100) / 10) as nat));
        assert(((48u8 + ones) as char) == digit_char((h % 10) as nat));
    }
    assert(final(out)@ =~= old(out)@ + fixed2(h as nat)) by {
        assert(out@ =~= old(out)@ + dec((h / 100) as nat) + seq![
            '.',
            digit_char(((h % 100) / 10) as nat),
            digit_char((h % 10) as nat),
        ]);
    }
}

/// Appends `covered / total` as a percentage, or `n/a` without a total.
pub fn push_pct(out: &mut Vec<char>, covered: u64, total: u64)
    ensures
        final(out)@ == old(out)@ + pct_text(covered as nat, total as nat),
{
    if total == 0 {
        out.push('n');
        out.push('/');
        out.push('a');
        assert(out@ =~= old(out)@ + pct_text(covered as nat, total as nat));
    } else {
        let h = percent_hundredths(covered, total);
        push_fixed2(out, h);
        out.push('%');
        assert(out@ =~= old(out)@ + pct_text(covered as nat, total as nat));
    }
}

/// `covered / total` as a percentage with two decimals, or `n/a`.
pub fn format_pct(covered: u64, total: u64) -> (r: String)
    ensures
        r@ == pct_text(covered as nat, total as nat),
{
    let mut out: Vec<char> = Vec::new();
    push_pct(&mut out, covered, total);
    crate::text::string_of(&out)
}

/// The delta, in percentage points, of `hc / ht` against `bc / bt`.
pub fn percent_delta(hc: u64, ht: u64, bc: u64, bt: u64) -> (d: Delta)
    requires
        ht > 0,
        bt > 0,
    ensures
        delta_of(d, hc as nat, ht as nat, bc as nat, bt as nat),
{
    let na: u128 = 10000u128 * (hc as u128);
    let nb: u128 = 10000u128 * (bc as u128);
    let ha: u128 = ht as u128;
    let hb: u128 = bt as u128;
    let qa = na / ha;
    let ra = na % ha;
    let qb = nb / hb;
    let rb = nb % hb;
    proof {
        lemma_div_parts(na as int, ha as int);
        lemma_div_parts(nb as int, hb as int);
        assert(ha * hb <= u128::MAX) by (nonlinear_arith)
            requires
                ha <= u64::MAX,
                hb <= u64::MAX,
        ;
        assert(ra * hb < ha * hb) by (nonlinear_arith)
            requires
                ra < ha,
                hb > 0,
        ;
        assert(rb * ha < ha * hb) by (nonlinear_arith)
            requires
                rb < hb,
                ha > 0,
        ;
        assert(qa <= na && qb <= nb) by (nonlinear_arith)
            requires
                ha >= 1,
                hb >= 1,
                qa == na / ha,
                qb == nb / hb,
                na >= 0,
                nb >= 0,
        ;
    }
    let den: u128 = ha * hb;
    let fa: u128 = ra * hb;
    let fb: u128 = rb * ha;
    let ghost n = delta_scaled(hc as nat, ht as nat, bc as nat, bt as nat);
    let ghost f = fa - fb;
    let ghost q = qa - qb;
    proof {
        assert(n == den * q + f) by (nonlinear_arith)
            requires
                n == 10000 * (hc * bt - bc * ht),
                na == 10000 * hc,
                nb == 10000 * bc,
                na == ha * qa + ra,
                nb == hb * qb + rb,
                ha == ht,
                hb == bt,
                den == ha * hb,
                fa == ra * hb,
                fb == rb * ha,
                f == fa - fb,
                q == qa - qb,
        ;
    }
    // The sign and floor of `|n| / den` from `q` and `f`, with `|f| < den`.
    let (negative, floor, rem): (bool, u128, u128) = if qa > qb || (qa == qb && fa >= fb) {
        if fa >= fb {
            (false, qa - qb, fa - fb)
        } else {
            (false, qa - qb - 1, den - (fb - fa))
        }
    } else {
        if fb >= fa {
            (true, qb - qa, fb - fa)
        } else {
            (true, qb - qa - 1, den - (fa - fb))
        }
    };
    proof {
        let m = if n < 0 {
            -n
        } else {
            n
        };
        if qa > qb || (qa == qb && fa >= fb) {
            assert(n >= 0) by (nonlinear_arith)
                requires
                    n == den * q + f,
                    q >= 1 || (q == 0 && f >= 0),
                    f > -den,
                    den > 0,
            ;
        } else {
            assert(n < 0) by (nonlinear_arith)
                requires
                    n == den * q + f,
                    q <= -1 || (q == 0 && f < 0),
                    f < den,
                    den > 0,
            ;
        }
        assert(m == den * floor + rem) by (nonlinear_arith)
            requires
                n == den * q + f,
                m == (if n < 0 {
                    -n
                } else {
                    n
                }),
                n < 0 <==> negative,
                !negative ==> (f >= 0 ==> floor == q && rem == f),
                !negative ==> (f < 0 ==> floor == q - 1 && rem == den + f),
                negative ==> (f <= 0 ==> floor == -q && rem == -f),
                negative ==> (f > 0 ==> floor == -q - 1 && rem == den - f),
        ;
        lemma_round_from_parts(m, den as int, floor as int, rem as int);
    }
    let hundredths = round_parts(floor, rem, den);
    // Half a hundredth of a point, either way.
    let rises = !negative && (floor >= 1 || rem >= den - rem);
    let falls = negative && (floor >= 1 || rem >= den - rem);
    let exceeds_rise = !negative && (floor >= 1 || rem > den - rem);
    let exceeds_fall = negative && (floor >= 1 || rem > den - rem);
    proof {
        let m = if n < 0 {
            -n
        } else {
            n
        };
        assert((floor >= 1 || 2 * rem >= den) <==> 2 * m >= den) by (nonlinear_arith)
            requires
                m == den * floor + rem,
                0 <= rem < den,
                floor >= 0,
        ;
        assert((floor >= 1 || 2 * rem > den) <==> 2 * m > den) by (nonlinear_arith)
            requires
                m == den * floor + rem,
                0 <= rem < den,
                floor >= 0,
        ;
    }
    Delta { negative, hundredths, rises, falls, exceeds_rise, exceeds_fall }
}

/// The percentage of `covered` out of `executable`, in hundredths of a
/// percent as reports show it; `None` without executable lines.
pub fn coverage_pct(covered: u64, executable: u64) -> (r: Option<u128>)
    ensures
        r == coverage_pct_of(covered as nat, executable as nat),
{
    if executable == 0 {
        None
    } else {
        Some(percent_hundredths(covered, executable))
    }
}

} // verus!
