use crate::decimal::{
    decimal_parts, digits_value, lead_zeros, lemma_fits, lemma_pow10_mono, lemma_pow10_positive,
    magnitude, round_units,
    parse_decimal, pow10, units_at, Decimal, EXP_CAP, MAX_UNITS, UNIT,
};
use vstd::prelude::*;

verus! {

/// The default weight of each signal, one half.
pub const HALF: i64 = 500_000_000;

/// Blend weights `alpha / scale` (repetition) and `beta / scale` (drift).
#[derive(Clone, Copy, Debug, PartialEq, Eq, Structural)]
pub struct WordMathConfig {
    pub alpha: i64,
    pub beta: i64,
    pub scale: u64,
}

impl WordMathConfig {
    /// Numerators within bound, and a positive scale no larger than two bounds.
    pub open spec fn wf(self) -> bool {
        &&& 0 < self.scale <= 2 * MAX_UNITS
        &&& -MAX_UNITS <= self.alpha <= MAX_UNITS
        &&& -MAX_UNITS <= self.beta <= MAX_UNITS
    }

    pub open spec fn triple(self) -> (int, int, int) {
        (self.alpha as int, self.beta as int, self.scale as int)
    }
}

impl Default for WordMathConfig {
    /// Equal weights of one half each.
    fn default() -> (r: Self)
        ensures
            r.triple() == (HALF as int, HALF as int, UNIT as int),
            r.wf(),
    {
        WordMathConfig { alpha: HALF, beta: HALF, scale: UNIT as u64 }
    }
}

/// One half as decimal parts: `5 * 10^8` billionths.
pub open spec fn half_parts() -> (bool, Seq<char>, int) {
    (false, seq!['5'], 8)
}

/// An override's decimal parts, one half when it is missing or no number.
pub open spec fn override_parts(v: Option<&str>) -> (bool, Seq<char>, int) {
    match v {
        Some(s) => match decimal_parts(s@) {
            Some(p) => p,
            None => half_parts(),
        },
        None => half_parts(),
    }
}

/// The power of ten, over billionths, of the unit both weights are held in:
/// the least that keeps each within `10^17` units by the magnitudes.
pub open spec fn common_shift(pa: (bool, Seq<char>, int), pb: (bool, Seq<char>, int)) -> int {
    let ma = magnitude(pa) - 17;
    let mb = magnitude(pb) - 17;
    if ma <= 0 && mb <= 0 {
        0
    } else if ma >= mb {
        ma
    } else {
        mb
    }
}

/// The configuration from two weights, each rounded to the unit of
/// `10^t` billionths with `t` the common shift. Where the weights sum past
/// one they are divided by their sum; else the scale is one. Weights too
/// large for the scale of one (`t > 9`, when the two nearly cancel) keep
/// their rounded values over a scale of one unit.
pub open spec fn config_of(pa: (bool, Seq<char>, int), pb: (bool, Seq<char>, int)) -> (int, int, int) {
    let t = common_shift(pa, pb);
    let a = units_at(pa, t);
    let b = units_at(pb, t);
    if t <= 9 {
        let one = pow10((9 - t) as nat);
        if a + b > one {
            (a, b, a + b)
        } else {
            (a, b, one)
        }
    } else if a + b >= 1 {
        (a, b, a + b)
    } else {
        (a, b, 1)
    }
}

fn override_or_half(v: Option<&str>) -> (r: Decimal)
    ensures
        r.parts() == override_parts(v),
        r.wf(),
{
    let half = Decimal { negative: false, digits: vec!['5'], exp: 8 };
    proof {
        assert(half.digits@ =~= seq!['5']);
    }
    match v {
        Some(s) => match parse_decimal(s) {
            Some(d) => d,
            None => half,
        },
        None => half,
    }
}

/// The magnitude of a decimal.
fn magnitude_of(d: &Decimal) -> (r: i128)
    requires
        d.wf(),
    ensures
        r == magnitude(d.parts()),
        -3 * EXP_CAP <= r <= 3 * EXP_CAP,
{
    let ghost s = d.digits@;
    let mut i: usize = 0;
    proof {
        assert(s.skip(0) =~= s);
    }
    while i < d.digits.len() && d.digits[i] == '0'
        invariant
            i <= s.len(),
            s == d.digits@,
            lead_zeros(s) == i + lead_zeros(s.skip(i as int)),
        decreases s.len() - i,
    {
        proof {
            assert(s.skip(i as int).skip(1) =~= s.skip(i + 1));
            assert(s.skip(i as int)[0] == s[i as int]);
        }
        i = i + 1;
    }
    proof {
        if i < s.len() {
            assert(s.skip(i as int)[0] == s[i as int]);
        }
        assert(lead_zeros(s.skip(i as int)) == 0);
    }
    let l = d.digits.len() - i;
    if l == 0 {
        0
    } else {
        l as i128 + d.exp
    }
}

/// A decimal in units of `10^t` billionths.
fn units_of(d: &Decimal, t: i128) -> (r: i64)
    requires
        d.wf(),
        0 <= t,
        t >= magnitude(d.parts()) - 17,
        t <= 2 * EXP_CAP + 1_000_000_000_000_000_000_000,
    ensures
        r as int == units_at(d.parts(), t as int),
        -100_000_000_000_000_000 <= r <= 100_000_000_000_000_000,
{
    proof {
        lemma_fits(d.parts(), t as int);
    }
    match round_units(&d.digits, d.exp - t) {
        Some(x) => if d.negative {
            -(x as i64)
        } else {
            x as i64
        },
        None => 0,
    }
}

fn pow10_exec(k: u32) -> (r: i64)
    requires
        k <= 9,
    ensures
        r as int == pow10(k as nat),
        1 <= r <= UNIT,
{
    proof {
        reveal_with_fuel(pow10, 10);
    }
    let mut r: i64 = 1;
    let mut i: u32 = 0;
    while i < k
        invariant
            i <= k <= 9,
            r as int == pow10(i as nat),
            1 <= r <= UNIT,
        decreases k - i,
    {
        proof {
            lemma_pow10_mono((i + 1) as nat, 9);
            reveal_with_fuel(pow10, 10);
        }
        r = r * 10;
        i = i + 1;
    }
    r
}

impl WordMathConfig {
    /// The configuration from the optional override values for the
    /// repetition weight and the drift weight (`WORD_MATH_ALPHA` and
    /// `WORD_MATH_BETA` in a process environment). Each is a decimal with an
    /// optional exponent; a missing value, or one that is no number, keeps
    /// the default of one half. The weights are rounded to a common unit
    /// fine enough to hold each to seventeen digits, and weights that sum
    /// past one are divided by their sum.
    pub fn from_env(alpha: Option<&str>, beta: Option<&str>) -> (r: WordMathConfig)
        ensures
            r.triple() == config_of(override_parts(alpha), override_parts(beta)),
            r.wf(),
    {
        let da = override_or_half(alpha);
        let db = override_or_half(beta);
        let ma = magnitude_of(&da) - 17;
        let mb = magnitude_of(&db) - 17;
        let t: i128 = if ma <= 0 && mb <= 0 {
            0
        } else if ma >= mb {
            ma
        } else {
            mb
        };
        let a = units_of(&da, t);
        let b = units_of(&db, t);
        if t <= 9 {
            let one = pow10_exec((9 - t) as u32);
            if a + b > one {
                WordMathConfig { alpha: a, beta: b, scale: (a + b) as u64 }
            } else {
                WordMathConfig { alpha: a, beta: b, scale: one as u64 }
            }
        } else if a + b >= 1 {
            WordMathConfig { alpha: a, beta: b, scale: (a + b) as u64 }
        } else {
            WordMathConfig { alpha: a, beta: b, scale: 1 }
        }
    }
}

/// The weights never sum past one: where they would, each becomes its
/// share of the sum, so that they sum to exactly one; each keeps its
/// rounded override, so the ratio of the two is kept, and equal overrides
/// become equal weights.
pub proof fn lemma_overrides_normalized(pa: (bool, Seq<char>, int), pb: (bool, Seq<char>, int))
    ensures
        ({
            let c = config_of(pa, pb);
            let t = common_shift(pa, pb);
            &&& c.0 + c.1 <= c.2
            &&& c.0 == units_at(pa, t)
            &&& c.1 == units_at(pb, t)
            &&& c.2 > 0
            &&& (t <= 9 && c.0 + c.1 > pow10((9 - t) as nat)) ==> c.0 + c.1 == c.2
            &&& pa == pb ==> c.0 == c.1
        }),
{
    let t = common_shift(pa, pb);
    if t <= 9 {
        lemma_pow10_positive((9 - t) as nat);
    }
}

/// An override that is no number keeps the default of one half for its
/// weight, while a number for the other weight below `10^8` is honoured as
/// written, to the billionth; when the two sum to at most one the scale
/// stays at one.
pub proof fn lemma_unreadable_override_keeps_default(a: Seq<char>, pb: (bool, Seq<char>, int))
    requires
        decimal_parts(a) is None,
        magnitude(pb) <= 17,
    ensures
        ({
            let c = config_of(half_parts(), pb);
            &&& c.0 == HALF
            &&& c.1 == units_at(pb, 0)
            &&& HALF + units_at(pb, 0) <= UNIT ==> c.2 == UNIT
        }),
        ({
            let c = config_of(pb, half_parts());
            &&& c.0 == units_at(pb, 0)
            &&& c.1 == HALF
            &&& HALF + units_at(pb, 0) <= UNIT ==> c.2 == UNIT
        }),
{
    reveal_with_fuel(pow10, 10);
    let h = half_parts();
    assert(h.1.skip(1) =~= Seq::<char>::empty());
    assert(lead_zeros(h.1) == 0);
    assert(magnitude(h) == 9);
    assert(digits_value(h.1.drop_last()) == 0) by {
        assert(h.1.drop_last() =~= Seq::<char>::empty());
    }
    assert(digits_value(h.1) == 5);
    assert(units_at(h, 0) == 5 * pow10(8));
}

} // verus!
