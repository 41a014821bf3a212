use crate::config::{WordMathConfig, HALF};
use crate::decimal::UNIT;
use crate::fraction::Fraction;
use vstd::prelude::*;

verus! {

/// Bound on the numerator and denominator of each signal handed to the score,
/// under which the exact score over a common denominator fits in 128 bits.
pub const MAX_SIGNAL: u128 = 0xffff_ffff;

/// `clamp(1 - (a/s)(yn/yd) - (b/s)(zn/zd), 0, 1)` over the common
/// denominator `s * yd * zd`; `0 / 1` and `1 / 1` at the two clamps.
pub open spec fn score_of(y: (int, int), z: (int, int), a: int, b: int, s: int) -> (int, int) {
    let d = s * y.1 * z.1;
    let n = d - a * y.0 * z.1 - b * z.0 * y.1;
    if n <= 0 {
        (0, 1)
    } else if n >= d {
        (1, 1)
    } else {
        (n, d)
    }
}

/// Linear score `1 - alpha * y - beta * z`, clamped to `[0, 1]`.
pub fn score_linear(y: Fraction, z: Fraction, cfg: WordMathConfig) -> (r: Fraction)
    requires
        cfg.wf(),
        0 < y.den <= MAX_SIGNAL,
        y.num <= MAX_SIGNAL,
        0 < z.den <= MAX_SIGNAL,
        z.num <= MAX_SIGNAL,
    ensures
        r.pair() == score_of(y.pair(), z.pair(), cfg.alpha as int, cfg.beta as int, cfg.scale as int),
        r.in_unit(),
{
    let yn = y.num as i128;
    let yd = y.den as i128;
    let zn = z.num as i128;
    let zd = z.den as i128;
    let a = cfg.alpha as i128;
    let b = cfg.beta as i128;
    let s = cfg.scale as i128;
    assert(0 < yd * zd <= 0xffff_ffff * 0xffff_ffff) by (nonlinear_arith)
        requires
            0 < yd <= 0xffff_ffff,
            0 < zd <= 0xffff_ffff,
    ;
    let yz = yd * zd;
    assert(0 < s * yz <= 2 * 1_000_000_000_000_000_000 * (0xffff_ffff * 0xffff_ffff)) by (nonlinear_arith)
        requires
            0 < s <= 2 * 1_000_000_000_000_000_000,
            0 < yz <= 0xffff_ffff * 0xffff_ffff,
    ;
    let d = s * yz;
    assert(0 <= yn * zd <= 0xffff_ffff * 0xffff_ffff) by (nonlinear_arith)
        requires
            0 <= yn <= 0xffff_ffff,
            0 < zd <= 0xffff_ffff,
    ;
    assert(0 <= zn * yd <= 0xffff_ffff * 0xffff_ffff) by (nonlinear_arith)
        requires
            0 <= zn <= 0xffff_ffff,
            0 < yd <= 0xffff_ffff,
    ;
    let p = yn * zd;
    let q = zn * yd;
    assert(-1_000_000_000_000_000_000 * (0xffff_ffff * 0xffff_ffff) <= a * p
        <= 1_000_000_000_000_000_000 * (0xffff_ffff * 0xffff_ffff)) by (nonlinear_arith)
        requires
            -1_000_000_000_000_000_000 <= a <= 1_000_000_000_000_000_000,
            0 <= p <= 0xffff_ffff * 0xffff_ffff,
    ;
    assert(-1_000_000_000_000_000_000 * (0xffff_ffff * 0xffff_ffff) <= b * q
        <= 1_000_000_000_000_000_000 * (0xffff_ffff * 0xffff_ffff)) by (nonlinear_arith)
        requires
            -1_000_000_000_000_000_000 <= b <= 1_000_000_000_000_000_000,
            0 <= q <= 0xffff_ffff * 0xffff_ffff,
    ;
    let n = d - a * p - b * q;
    proof {
        assert(s * yd * zd == s * yz) by (nonlinear_arith)
            requires
                yz == yd * zd,
        ;
        assert(a * yn * zd == a * p) by (nonlinear_arith)
            requires
                p == yn * zd,
        ;
        assert(b * zn * yd == b * q) by (nonlinear_arith)
            requires
                q == zn * yd,
        ;
    }
    if n <= 0 {
        Fraction { num: 0, den: 1 }
    } else if n >= d {
        Fraction { num: 1, den: 1 }
    } else {
        Fraction { num: n as u128, den: d as u128 }
    }
}

/// With the signals within `[0, 1]` and non-negative weights summing to at
/// most one, the unclamped score already lies within `[0, 1]`, so the clamp
/// changes nothing.
pub proof fn lemma_score_unclamped_in_unit(y: (int, int), z: (int, int), a: int, b: int, s: int)
    requires
        0 <= y.0 <= y.1,
        0 < y.1,
        0 <= z.0 <= z.1,
        0 < z.1,
        0 < s,
        0 <= a,
        0 <= b,
        a + b <= s,
    ensures
        0 <= s * y.1 * z.1 - a * y.0 * z.1 - b * z.0 * y.1 <= s * y.1 * z.1,
        0 <= score_of(y, z, a, b, s).0 <= score_of(y, z, a, b, s).1,
        0 < score_of(y, z, a, b, s).1,
{
    assert(a * y.0 * z.1 <= a * y.1 * z.1) by (nonlinear_arith)
        requires
            0 <= y.0 <= y.1,
            0 < z.1,
            0 <= a,
    ;
    assert(b * z.0 * y.1 <= b * y.1 * z.1) by (nonlinear_arith)
        requires
            0 <= z.0 <= z.1,
            0 < y.1,
            0 <= b,
    ;
    assert((a + b) * y.1 * z.1 <= s * y.1 * z.1) by (nonlinear_arith)
        requires
            a + b <= s,
            0 < y.1,
            0 < z.1,
    ;
    assert((a + b) * y.1 * z.1 == a * y.1 * z.1 + b * y.1 * z.1) by (nonlinear_arith);
    assert(0 <= a * y.0 * z.1) by (nonlinear_arith)
        requires
            0 <= y.0,
            0 < z.1,
            0 <= a,
    ;
    assert(0 <= b * z.0 * y.1) by (nonlinear_arith)
        requires
            0 <= z.0,
            0 < y.1,
            0 <= b,
    ;
    assert(0 < s * y.1 * z.1) by (nonlinear_arith)
        requires
            0 < s,
            0 < y.1,
            0 < z.1,
    ;
}

/// Zero repetition and zero drift give a perfect score, whatever the weights.
pub proof fn lemma_score_of_clean_message(yd: int, zd: int, a: int, b: int, s: int)
    requires
        0 < yd,
        0 < zd,
        0 < s,
    ensures
        score_of((0, yd), (0, zd), a, b, s) == (1int, 1int),
{
    assert(a * 0 * zd == 0 && b * 0 * yd == 0) by (nonlinear_arith);
    assert(0 < s * yd * zd) by (nonlinear_arith)
        requires
            0 < s,
            0 < yd,
            0 < zd,
    ;
}

/// Full repetition and full drift under the default weights score zero.
pub proof fn lemma_score_of_worst_message(yd: int, zd: int)
    requires
        0 < yd,
        0 < zd,
    ensures
        score_of((yd, yd), (zd, zd), HALF as int, HALF as int, UNIT as int) == (0int, 1int),
{
    assert(UNIT * yd * zd - HALF * yd * zd - HALF * zd * yd == 0) by (nonlinear_arith);
}

} // verus!
