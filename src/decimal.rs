use vstd::prelude::*;
use vstd::string::StrSliceExecFns;

verus! {

/// Weights are held in units of one billionth.
pub const UNIT: i64 = 1_000_000_000;

/// Bound on the magnitude of a weight's numerator: a weight of 10^9 or more
/// in magnitude does not fit in billionths.
pub const MAX_UNITS: i64 = 1_000_000_000_000_000_000;

/// Exponents beyond this magnitude are read as this magnitude.
pub const EXP_CAP: u128 = 1_000_000_000_000_000_000_000;

pub open spec fn is_digit(c: char) -> bool {
    '0' <= c <= '9'
}

pub open spec fn digit_of(c: char) -> int {
    c as int - '0' as int
}

pub open spec fn all_digits(s: Seq<char>) -> bool {
    forall|i: int| 0 <= i < s.len() ==> is_digit(#[trigger] s[i])
}

/// The value of a string of decimal digits.
pub open spec fn digits_value(s: Seq<char>) -> int
    decreases s.len(),
{
    if s.len() == 0 {
        0
    } else {
        digits_value(s.drop_last()) * 10 + digit_of(s.last())
    }
}

pub open spec fn pow10(k: nat) -> int
    decreases k,
{
    if k == 0 {
        1
    } else {
        10 * pow10((k - 1) as nat)
    }
}

pub open spec fn is_first_of(s: Seq<char>, d: int, a: char, b: char) -> bool {
    &&& 0 <= d <= s.len()
    &&& d < s.len() ==> (s[d] == a || s[d] == b)
    &&& forall|k: int| 0 <= k < d ==> s[k] != a && s[k] != b
}

/// Index of the first `a` or `b`, or the length when there is none.
pub open spec fn first_of(s: Seq<char>, a: char, b: char) -> int {
    choose|d: int| is_first_of(s, d, a, b)
}

/// The characters before the first `.`.
pub open spec fn int_part(m: Seq<char>) -> Seq<char> {
    m.take(first_of(m, '.', '.'))
}

/// The characters after the first `.`, none when there is no `.`.
pub open spec fn frac_part(m: Seq<char>) -> Seq<char> {
    if first_of(m, '.', '.') < m.len() {
        m.skip(first_of(m, '.', '.') + 1)
    } else {
        Seq::empty()
    }
}

/// An exponent: an optional sign and at least one digit.
pub open spec fn exponent_value(s: Seq<char>) -> Option<int> {
    let signed = s.len() > 0 && (s[0] == '-' || s[0] == '+');
    let ds = if signed { s.skip(1) } else { s };
    if ds.len() > 0 && all_digits(ds) {
        Some(if signed && s[0] == '-' { -digits_value(ds) } else { digits_value(ds) })
    } else {
        None
    }
}

/// `x * 10^k` rounded to the nearest integer, halves rounded up.
pub open spec fn scaled_round(x: int, k: int) -> int {
    if k >= 0 {
        x * pow10(k as nat)
    } else {
        (2 * x + pow10((-k) as nat)) / (2 * pow10((-k) as nat))
    }
}

/// An exponent with its magnitude capped at `EXP_CAP`.
pub open spec fn clamp_exp(e: int) -> int {
    if e > EXP_CAP {
        EXP_CAP as int
    } else if e < -EXP_CAP {
        -EXP_CAP
    } else {
        e
    }
}

/// An unsigned decimal `digits[.digits][(e|E)[sign]digits]`, with at least
/// one mantissa digit, as its mantissa digits `d` and the power `k` such
/// that its value in billionths is `d * 10^k`.
pub open spec fn unsigned_parts(s: Seq<char>) -> Option<(Seq<char>, int)> {
    let x = first_of(s, 'e', 'E');
    let m = s.take(x);
    let e = if x < s.len() { exponent_value(s.skip(x + 1)) } else { Some(0) };
    let ip = int_part(m);
    let fp = frac_part(m);
    if all_digits(ip) && all_digits(fp) && ip.len() + fp.len() > 0 && e is Some {
        Some((ip + fp, 9 + clamp_exp(e->0) - fp.len()))
    } else {
        None
    }
}

/// An optionally signed decimal as (negative, mantissa digits, power of ten
/// of its value in billionths); `None` for text that is no number.
pub open spec fn decimal_parts(s: Seq<char>) -> Option<(bool, Seq<char>, int)> {
    let neg = s.len() > 0 && s[0] == '-';
    let body = if s.len() > 0 && (s[0] == '-' || s[0] == '+') { s.skip(1) } else { s };
    match unsigned_parts(body) {
        Some(u) => Some((neg, u.0, u.1)),
        None => None,
    }
}

/// The value of decimal parts in units of `10^t` billionths, rounded to
/// the nearest, halves away from zero.
pub open spec fn units_at(p: (bool, Seq<char>, int), t: int) -> int {
    let r = scaled_round(digits_value(p.1), p.2 - t);
    if p.0 {
        -r
    } else {
        r
    }
}

/// How many leading zeros a digit string has.
pub open spec fn lead_zeros(d: Seq<char>) -> nat
    decreases d.len(),
{
    if d.len() > 0 && d[0] == '0' {
        1 + lead_zeros(d.skip(1))
    } else {
        0
    }
}

/// The number of digits of the value in billionths: `0` for zero.
pub open spec fn magnitude(p: (bool, Seq<char>, int)) -> int {
    let l = p.1.len() - lead_zeros(p.1);
    if l == 0 {
        0
    } else {
        l + p.2
    }
}

pub proof fn lemma_pow10_positive(k: nat)
    ensures
        pow10(k) >= 1,
    decreases k,
{
    if k > 0 {
        lemma_pow10_positive((k - 1) as nat);
    }
}

pub proof fn lemma_pow10_mono(a: nat, b: nat)
    requires
        a <= b,
    ensures
        pow10(a) <= pow10(b),
    decreases b,
{
    if a < b {
        lemma_pow10_mono(a, (b - 1) as nat);
        lemma_pow10_positive((b - 1) as nat);
    }
}

proof fn lemma_digits_below(s: Seq<char>)
    requires
        all_digits(s),
    ensures
        0 <= digits_value(s) < pow10(s.len()),
    decreases s.len(),
{
    if s.len() > 0 {
        let p = s.drop_last();
        assert(all_digits(p)) by {
            assert forall|i: int| 0 <= i < p.len() implies is_digit(#[trigger] p[i]) by {
                assert(p[i] == s[i]);
            }
        }
        lemma_digits_below(p);
        assert(is_digit(s[s.len() - 1]));
        let dv = digits_value(p);
        let pw = pow10(p.len());
        assert(dv * 10 + 9 < 10 * pw) by (nonlinear_arith)
            requires
                0 <= dv < pw,
        ;
    }
}

proof fn lemma_digits_split(s: Seq<char>, m: int)
    requires
        0 <= m <= s.len(),
    ensures
        digits_value(s) == digits_value(s.take(m)) * pow10((s.len() - m) as nat) + digits_value(
            s.skip(m),
        ),
    decreases s.len() - m,
{
    if m == s.len() {
        assert(s.take(m) =~= s);
        assert(s.skip(m) =~= Seq::<char>::empty());
    } else {
        let dl = s.drop_last();
        lemma_digits_split(dl, m);
        assert(dl.take(m) =~= s.take(m));
        assert(s.skip(m).drop_last() =~= dl.skip(m));
        assert(s.skip(m).last() == s.last());
        let t = digits_value(s.take(m));
        let r = digits_value(dl.skip(m));
        let p = pow10((dl.len() - m) as nat);
        let c = digit_of(s.last());
        assert(pow10((s.len() - m) as nat) == 10 * p);
        assert(digits_value(s) == digits_value(dl) * 10 + c);
        assert(digits_value(s.skip(m)) == digits_value(s.skip(m).drop_last()) * 10 + c);
        assert((t * p + r) * 10 + c == t * (10 * p) + (r * 10 + c)) by (nonlinear_arith);
    }
}

proof fn lemma_all_digits_sub(s: Seq<char>, a: int, b: int)
    requires
        all_digits(s),
        0 <= a <= b <= s.len(),
    ensures
        all_digits(s.subrange(a, b)),
{
    assert forall|i: int| 0 <= i < b - a implies is_digit(#[trigger] s.subrange(a, b)[i]) by {
        assert(s.subrange(a, b)[i] == s[a + i]);
    }
}

/// Dropping the last `len - m` digits, rounding on the first dropped one.
proof fn lemma_round_split(s: Seq<char>, m: int)
    requires
        all_digits(s),
        0 <= m < s.len(),
    ensures
        scaled_round(digits_value(s), m - s.len()) == digits_value(s.take(m)) + if digit_of(s[m])
            >= 5 {
            1int
        } else {
            0int
        },
{
    let j = (s.len() - m) as nat;
    let tail = s.skip(m);
    lemma_digits_split(s, m);
    lemma_digits_split(tail, 1);
    assert(tail.take(1).drop_last() =~= Seq::<char>::empty());
    assert(tail.take(1).last() == s[m]);
    assert(is_digit(s[m]));
    assert(tail.skip(1) =~= s.skip(m + 1));
    lemma_all_digits_sub(s, m + 1, s.len() as int);
    assert(s.skip(m + 1) =~= s.subrange(m + 1, s.len() as int));
    lemma_digits_below(s.skip(m + 1));
    lemma_all_digits_sub(s, 0, m);
    assert(s.take(m) =~= s.subrange(0, m));
    lemma_digits_below(s.take(m));
    let q = digits_value(s.take(m));
    let c = digit_of(s[m]);
    let r1 = digits_value(s.skip(m + 1));
    let p = pow10((j - 1) as nat);
    lemma_pow10_positive((j - 1) as nat);
    assert(pow10(j) == 10 * p);
    assert(tail.len() - 1 == j - 1);
    let x = digits_value(s);
    assert(digits_value(tail.take(1)) == digits_value(tail.take(1).drop_last()) * 10 + c);
    assert(digits_value(tail.take(1)) == c);
    let rt = digits_value(tail);
    assert(rt == c * p + r1);
    assert(x == q * pow10(j) + rt);
    assert(x == q * (10 * p) + (c * p + r1)) by (nonlinear_arith)
        requires
            x == q * pow10(j) + rt,
            pow10(j) == 10 * p,
            rt == c * p + r1,
    ;
    let b: int = if c >= 5 { 1 } else { 0 };
    let w = 2 * (c * p + r1) + 10 * p;
    assert(0 <= w - b * (20 * p) < 20 * p) by (nonlinear_arith)
        requires
            0 <= c <= 9,
            0 <= r1 < p,
            b == if c >= 5 { 1int } else { 0int },
            w == 2 * (c * p + r1) + 10 * p,
    ;
    assert(2 * x + pow10(j) == (q + b) * (2 * pow10(j)) + (w - b * (20 * p))) by (nonlinear_arith)
        requires
            x == q * (10 * p) + (c * p + r1),
            pow10(j) == 10 * p,
            w == 2 * (c * p + r1) + 10 * p,
    ;
    vstd::arithmetic::div_mod::lemma_fundamental_div_mod_converse(
        2 * x + pow10(j),
        2 * pow10(j),
        q + b,
        w - b * (20 * p),
    );
}

proof fn lemma_scaled_at_least(x: int, kk: int, i: int)
    requires
        0 <= x,
        0 <= i <= kk,
        x * pow10(i as nat) >= MAX_UNITS,
    ensures
        scaled_round(x, kk) >= MAX_UNITS,
{
    lemma_pow10_mono(i as nat, kk as nat);
    let a = pow10(i as nat);
    let b = pow10(kk as nat);
    assert(x * a <= x * b) by (nonlinear_arith)
        requires
            0 <= x,
            a <= b,
    ;
}

proof fn lemma_rounds_to_zero(s: Seq<char>, kk: int)
    requires
        all_digits(s),
        kk < 0,
        -kk > s.len(),
    ensures
        scaled_round(digits_value(s), kk) == 0,
{
    let j = (-kk) as nat;
    lemma_digits_below(s);
    lemma_pow10_mono(s.len(), (j - 1) as nat);
    let p = pow10((j - 1) as nat);
    assert(pow10(j) == 10 * p);
    let x = digits_value(s);
    vstd::arithmetic::div_mod::lemma_fundamental_div_mod_converse(
        2 * x + pow10(j),
        2 * pow10(j),
        0,
        2 * x + pow10(j),
    );
}

/// The characters of `s`.
fn chars_of(s: &str) -> (r: Vec<char>)
    ensures
        r@ == s@,
{
    let n = s.unicode_len();
    let mut v: Vec<char> = Vec::new();
    let mut i: usize = 0;
    while i < n
        invariant
            n == s@.len(),
            i <= n,
            v@ == s@.take(i as int),
        decreases n - i,
    {
        v.push(s.get_char(i));
        assert(v@ =~= s@.take(i + 1));
        i = i + 1;
    }
    assert(v@ =~= s@);
    v
}

/// Value of the digits `v[from..to]`, capped at `cap`; `None` when one of
/// them is no digit.
fn capped_digits(v: &Vec<char>, from: usize, to: usize, cap: u128) -> (r: Option<u128>)
    requires
        from <= to <= v.len(),
        0 < cap <= EXP_CAP,
    ensures
        match r {
            Some(x) => all_digits(v@.subrange(from as int, to as int)) && x as int == if digits_value(
                v@.subrange(from as int, to as int),
            ) < cap {
                digits_value(v@.subrange(from as int, to as int))
            } else {
                cap as int
            },
            None => !all_digits(v@.subrange(from as int, to as int)),
        },
{
    let mut acc: u128 = 0;
    let mut i: usize = from;
    while i < to
        invariant
            from <= i <= to <= v.len(),
            0 < cap <= EXP_CAP,
            all_digits(v@.subrange(from as int, i as int)),
            acc <= cap,
            acc as int == if digits_value(v@.subrange(from as int, i as int)) < cap {
                digits_value(v@.subrange(from as int, i as int))
            } else {
                cap as int
            },
        decreases to - i,
    {
        let c = v[i];
        let ghost p = v@.subrange(from as int, i as int);
        let ghost q = v@.subrange(from as int, i + 1);
        assert(q.drop_last() =~= p);
        if !('0' <= c && c <= '9') {
            assert(q[i - from] == c);
            assert(!all_digits(v@.subrange(from as int, to as int))) by {
                assert(v@.subrange(from as int, to as int)[i - from] == c);
            }
            return None;
        }
        let d = (c as u32 - '0' as u32) as u128;
        proof {
            assert forall|k: int| 0 <= k < q.len() implies is_digit(#[trigger] q[k]) by {
                if k < p.len() {
                    assert(q[k] == p[k]);
                }
            }
            lemma_digits_below(p);
        }
        if acc < cap {
            let t = acc * 10 + d;
            acc = if t < cap { t } else { cap };
        }
        i = i + 1;
    }
    Some(acc)
}

/// Index of the first `a` or `b` in `v[from..to]`, or `to`.
fn find_first(v: &Vec<char>, from: usize, to: usize, a: char, b: char) -> (d: usize)
    requires
        from <= to <= v.len(),
    ensures
        from <= d <= to,
        first_of(v@.subrange(from as int, to as int), a, b) == d - from,
{
    let ghost s = v@.subrange(from as int, to as int);
    let mut d: usize = from;
    while d < to && v[d] != a && v[d] != b
        invariant
            from <= d <= to <= v.len(),
            forall|k: int| from <= k < d ==> v@[k] != a && v@[k] != b,
        decreases to - d,
    {
        d = d + 1;
    }
    let ghost dr = (d - from) as int;
    proof {
        assert forall|k: int| 0 <= k < dr implies s[k] != a && s[k] != b by {
            assert(s[k] == v@[from + k]);
        }
        if dr < s.len() {
            assert(s[dr] == v@[d as int]);
        }
        assert(is_first_of(s, dr, a, b));
        let c = first_of(s, a, b);
        assert(is_first_of(s, c, a, b));
        if c < dr {
            assert(s[c] != a && s[c] != b);
        } else if dr < c {
            assert(s[dr] != a && s[dr] != b);
        }
    }
    d
}

/// Appends `v[from..to]` to `out`.
fn append_range(v: &Vec<char>, from: usize, to: usize, out: &mut Vec<char>)
    requires
        from <= to <= v.len(),
    ensures
        final(out)@ == old(out)@ + v@.subrange(from as int, to as int),
{
    let ghost start = out@;
    let mut i: usize = from;
    while i < to
        invariant
            from <= i <= to <= v.len(),
            out@ == start + v@.subrange(from as int, i as int),
        decreases to - i,
    {
        out.push(v[i]);
        assert(out@ =~= start + v@.subrange(from as int, i + 1));
        i = i + 1;
    }
}

/// The exponent `v[from..to]`, its magnitude capped at `EXP_CAP`.
fn parse_exponent(v: &Vec<char>, from: usize, to: usize) -> (r: Option<i128>)
    requires
        from <= to <= v.len(),
    ensures
        match exponent_value(v@.subrange(from as int, to as int)) {
            None => r is None,
            Some(e) => r is Some && r->0 as int == if e > EXP_CAP {
                EXP_CAP as int
            } else if e < -EXP_CAP {
                -EXP_CAP
            } else {
                e
            },
        },
{
    let ghost s = v@.subrange(from as int, to as int);
    let signed = from < to && (v[from] == '-' || v[from] == '+');
    let start: usize = if signed { from + 1 } else { from };
    proof {
        if signed {
            assert(s[0] == v@[from as int]);
            assert(s.skip(1) =~= v@.subrange(start as int, to as int));
        } else {
            if from < to {
                assert(s[0] == v@[from as int]);
            }
        }
    }
    if start == to {
        return None;
    }
    match capped_digits(v, start, to, EXP_CAP) {
        None => None,
        Some(m) => {
            let mag = m as i128;
            if signed && v[from] == '-' {
                Some(-mag)
            } else {
                Some(mag)
            }
        },
    }
}

/// Leading zeros add nothing: the value is below ten to the count of the
/// remaining digits.
proof fn lemma_lead_zeros(d: Seq<char>)
    requires
        all_digits(d),
    ensures
        lead_zeros(d) <= d.len(),
        digits_value(d) < pow10((d.len() - lead_zeros(d)) as nat),
        0 <= digits_value(d),
    decreases d.len(),
{
    lemma_digits_below(d);
    if d.len() > 0 && d[0] == '0' {
        let r = d.skip(1);
        lemma_all_digits_sub(d, 1, d.len() as int);
        assert(r =~= d.subrange(1, d.len() as int));
        lemma_lead_zeros(r);
        lemma_digits_split(d, 1);
        assert(d.take(1).drop_last() =~= Seq::<char>::empty());
        assert(digits_value(d.take(1)) == digits_value(d.take(1).drop_last()) * 10 + digit_of(
            d.take(1).last(),
        ));
        assert(digits_value(d.take(1)) == 0);
        assert(d.skip(1) == r);
        let pw = pow10((d.len() - 1) as nat);
        assert(0 * pw == 0) by (nonlinear_arith);
        assert(digits_value(d) == digits_value(r));
        assert(lead_zeros(d) == 1 + lead_zeros(r));
        assert((d.len() - lead_zeros(d)) as nat == (r.len() - lead_zeros(r)) as nat);
    }
}

proof fn lemma_pow10_17()
    ensures
        pow10(17) == 100_000_000_000_000_000,
{
    reveal_with_fuel(pow10, 18);
}

proof fn lemma_pow10_add(a: nat, b: nat)
    ensures
        pow10(a) * pow10(b) == pow10(a + b),
    decreases a,
{
    if a > 0 {
        lemma_pow10_add((a - 1) as nat, b);
        assert(pow10(a) * pow10(b) == 10 * (pow10((a - 1) as nat) * pow10(b))) by (nonlinear_arith)
            requires
                pow10(a) == 10 * pow10((a - 1) as nat),
        ;
        assert((a + b) as nat - 1 == (a - 1) as nat + b);
    }
}

proof fn lemma_round_le(x: int, q: int, p: int)
    requires
        0 <= x < p * q,
        q >= 1,
        p >= 1,
    ensures
        0 <= (2 * x + q) / (2 * q) <= p,
{
    let n = 2 * x + q;
    let d = 2 * q;
    vstd::arithmetic::div_mod::lemma_fundamental_div_mod(n, d);
    vstd::arithmetic::div_mod::lemma_mod_pos_bound(n, d);
    let c = n / d;
    let r = n % d;
    assert(0 <= c <= p) by (nonlinear_arith)
        requires
            n == d * c + r,
            0 <= r < d,
            n == 2 * x + q,
            d == 2 * q,
            0 <= x < p * q,
            q >= 1,
    ;
}

/// At a shift no smaller than the magnitude less seventeen, a value is at
/// most `10^17` units.
pub proof fn lemma_fits(p: (bool, Seq<char>, int), t: int)
    requires
        all_digits(p.1),
        t >= 0,
        t >= magnitude(p) - 17,
    ensures
        0 <= scaled_round(digits_value(p.1), p.2 - t) <= 100_000_000_000_000_000,
{
    let x = digits_value(p.1);
    lemma_lead_zeros(p.1);
    let l = (p.1.len() - lead_zeros(p.1)) as nat;
    let kk = p.2 - t;
    lemma_pow10_positive(l);
    lemma_pow10_17();
    if l == 0 {
        assert(x == 0);
        if kk >= 0 {
            assert(x * pow10(kk as nat) == 0);
        } else {
            lemma_pow10_positive((-kk) as nat);
            lemma_round_le(0, pow10((-kk) as nat), 1);
            let w = pow10((-kk) as nat);
            vstd::arithmetic::div_mod::lemma_fundamental_div_mod_converse(w, 2 * w, 0, w);
        }
    } else if kk >= 0 {
        lemma_pow10_add(l, kk as nat);
        lemma_pow10_mono((l + kk) as nat, 17);
        lemma_pow10_positive(kk as nat);
        let a = pow10(kk as nat);
        assert(x * a < pow10(l) * a) by (nonlinear_arith)
            requires
                x < pow10(l),
                a >= 1,
        ;
        assert(0 <= x * a) by (nonlinear_arith)
            requires
                0 <= x,
                a >= 1,
        ;
    } else {
        let j = (-kk) as nat;
        lemma_pow10_positive(j);
        if l >= j {
            lemma_pow10_add((l - j) as nat, j);
            lemma_pow10_positive((l - j) as nat);
            lemma_pow10_mono((l - j) as nat, 17);
            lemma_round_le(x, pow10(j), pow10((l - j) as nat));
        } else {
            lemma_pow10_mono(l, j);
            lemma_round_le(x, pow10(j), 1);
        }
    }
}

/// Decimal parts as a value: `±digits * 10^exp` billionths.
pub struct Decimal {
    pub negative: bool,
    pub digits: Vec<char>,
    pub exp: i128,
}

impl Decimal {
    pub open spec fn parts(&self) -> (bool, Seq<char>, int) {
        (self.negative, self.digits@, self.exp as int)
    }

    /// Digits only, and a power within what a written number can reach.
    pub open spec fn wf(&self) -> bool {
        &&& all_digits(self.digits@)
        &&& -2 * EXP_CAP <= self.exp <= 2 * EXP_CAP
    }
}

/// Why a text gives no weight.
#[derive(Clone, Copy, Debug, PartialEq, Eq, Structural)]
pub enum WeightError {
    /// The text is no number.
    NotANumber,
    /// The number is `10^9` or more in magnitude.
    TooLarge,
}

/// Reads `v[from..]` as unsigned decimal parts.
fn parse_unsigned(v: &Vec<char>, from: usize) -> (r: Option<(Vec<char>, i128)>)
    requires
        from <= v.len(),
    ensures
        match r {
            Some(u) => unsigned_parts(v@.skip(from as int)) == Some((u.0@, u.1 as int))
                && all_digits(u.0@) && -2 * EXP_CAP <= u.1 <= 2 * EXP_CAP,
            None => unsigned_parts(v@.skip(from as int)) is None,
        },
{
    let n = v.len();
    let ghost s = v@.skip(from as int);
    proof {
        assert(s =~= v@.subrange(from as int, n as int));
    }
    let x = find_first(v, from, n, 'e', 'E');
    let ghost m = s.take(x - from);
    proof {
        assert(m =~= v@.subrange(from as int, x as int));
        if x < n {
            assert(s.skip(x - from + 1) =~= v@.subrange(x + 1, n as int));
        }
    }
    let e: i128 = if x < n {
        match parse_exponent(v, x + 1, n) {
            None => {
                return None;
            },
            Some(e) => e,
        }
    } else {
        0
    };
    let d = find_first(v, from, x, '.', '.');
    let fe: usize = if d < x { d + 1 } else { x };
    let ghost ip = int_part(m);
    let ghost fp = frac_part(m);
    proof {
        assert(ip =~= v@.subrange(from as int, d as int));
        assert(fp =~= v@.subrange(fe as int, x as int));
    }
    if d - from + (x - fe) == 0 {
        return None;
    }
    let mut digs: Vec<char> = Vec::new();
    append_range(v, from, d, &mut digs);
    append_range(v, fe, x, &mut digs);
    proof {
        assert(digs@ =~= ip + fp);
        if all_digits(ip) && all_digits(fp) {
            assert forall|i: int| 0 <= i < digs@.len() implies is_digit(#[trigger] digs@[i]) by {
                if i < ip.len() {
                    assert(digs@[i] == ip[i]);
                } else {
                    assert(digs@[i] == fp[i - ip.len()]);
                }
            }
        } else if !all_digits(ip) {
            let i = choose|i: int| 0 <= i < ip.len() && !is_digit(ip[i]);
            assert(digs@[i] == ip[i]);
        } else {
            let i = choose|i: int| 0 <= i < fp.len() && !is_digit(fp[i]);
            assert(digs@[ip.len() + i] == fp[i]);
        }
    }
    let len = digs.len();
    proof {
        assert(digs@.subrange(0, len as int) =~= digs@);
    }
    match capped_digits(&digs, 0, len, 1) {
        None => {
            return None;
        },
        Some(_) => {},
    }
    let f = x - fe;
    let k: i128 = 9 + e - f as i128;
    Some((digs, k))
}

/// Reads `text` as decimal parts; `None` when it is no number.
pub fn parse_decimal(text: &str) -> (r: Option<Decimal>)
    ensures
        match r {
            Some(d) => decimal_parts(text@) == Some(d.parts()) && d.wf(),
            None => decimal_parts(text@) is None,
        },
{
    let v = chars_of(text);
    let neg = v.len() > 0 && v[0] == '-';
    let signed = v.len() > 0 && (v[0] == '-' || v[0] == '+');
    let from: usize = if signed { 1 } else { 0 };
    proof {
        assert(v@.skip(0) =~= v@);
    }
    match parse_unsigned(&v, from) {
        Some(u) => Some(Decimal { negative: neg, digits: u.0, exp: u.1 }),
        None => None,
    }
}

/// `scaled_round(digits, kk)` when it is below `MAX_UNITS`.
pub(crate) fn round_units(digs: &Vec<char>, kk: i128) -> (r: Option<u64>)
    requires
        all_digits(digs@),
        -8 * EXP_CAP <= kk <= 8 * EXP_CAP,
    ensures
        match r {
            Some(x) => x as int == scaled_round(digits_value(digs@), kk as int) && x < MAX_UNITS,
            None => scaled_round(digits_value(digs@), kk as int) >= MAX_UNITS,
        },
{
    let len = digs.len();
    let ghost dv = digits_value(digs@);
    proof {
        lemma_digits_below(digs@);
        assert(digs@.subrange(0, len as int) =~= digs@);
    }
    if kk >= 0 {
        let t = match capped_digits(digs, 0, len, MAX_UNITS as u128) {
            None => {
                return None;
            },
            Some(t) => t,
        };
        if t == 0 {
            proof {
                assert(dv == 0);
                assert(0 * pow10(kk as nat) == 0);
            }
            return Some(0);
        }
        if t >= MAX_UNITS as u128 {
            proof {
                lemma_scaled_at_least(dv, kk as int, 0);
            }
            return None;
        }
        let mut acc: u128 = t;
        let mut i: i128 = 0;
        while i < kk && acc < 100_000_000_000_000_000
            invariant
                0 <= i <= kk,
                1 <= acc < MAX_UNITS,
                acc as int == t * pow10(i as nat),
            decreases kk - i,
        {
            proof {
                assert(t * pow10((i + 1) as nat) == acc * 10) by (nonlinear_arith)
                    requires
                        acc as int == t * pow10(i as nat),
                        pow10((i + 1) as nat) == 10 * pow10(i as nat),
                ;
            }
            acc = acc * 10;
            i = i + 1;
        }
        if i < kk {
            proof {
                assert(t * pow10((i + 1) as nat) == acc * 10) by (nonlinear_arith)
                    requires
                        acc as int == t * pow10(i as nat),
                        pow10((i + 1) as nat) == 10 * pow10(i as nat),
                ;
                lemma_scaled_at_least(dv, kk as int, (i + 1) as int);
            }
            return None;
        }
        Some(acc as u64)
    } else {
        let j = (-kk) as u128;
        if j > len as u128 {
            proof {
                lemma_rounds_to_zero(digs@, kk as int);
            }
            return Some(0);
        }
        let mm = len - j as usize;
        proof {
            assert(digs@.subrange(0, mm as int) =~= digs@.take(mm as int));
            lemma_all_digits_sub(digs@, 0, mm as int);
            lemma_round_split(digs@, mm as int);
        }
        let t = match capped_digits(digs, 0, mm, MAX_UNITS as u128) {
            None => {
                return None;
            },
            Some(t) => t,
        };
        let up: u128 = if digs[mm] >= '5' { 1 } else { 0 };
        if t + up >= MAX_UNITS as u128 {
            return None;
        }
        Some((t + up) as u64)
    }
}

/// Reads a weight in billionths, rounded to the nearest (halves away from
/// zero): `TooLarge` at `10^9` or more in magnitude, `NotANumber` for text
/// that is no number.
pub fn parse_weight(text: &str) -> (r: Result<i64, WeightError>)
    ensures
        match decimal_parts(text@) {
            None => r == Err::<i64, WeightError>(WeightError::NotANumber),
            Some(p) => if scaled_round(digits_value(p.1), p.2) < MAX_UNITS {
                r is Ok && r->Ok_0 as int == units_at(p, 0)
            } else {
                r == Err::<i64, WeightError>(WeightError::TooLarge)
            },
        },
{
    match parse_decimal(text) {
        None => Err(WeightError::NotANumber),
        Some(d) => match round_units(&d.digits, d.exp) {
            None => Err(WeightError::TooLarge),
            Some(x) => if d.negative {
                Ok(-(x as i64))
            } else {
                Ok(x as i64)
            },
        },
    }
}

} // verus!
