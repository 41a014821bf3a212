use crate::fraction::Fraction;
use crate::text::{strings_view, tokenize, tokens_of};
use vstd::prelude::*;

verus! {

/// How often `w` occurs in `s`.
pub open spec fn count_in(s: Seq<Seq<char>>, w: Seq<char>) -> nat
    decreases s.len(),
{
    if s.len() == 0 {
        0
    } else {
        count_in(s.drop_last(), w) + if s.last() == w { 1nat } else { 0nat }
    }
}

/// The largest occurrence count among the first `k` tokens of `s`.
pub open spec fn max_count_upto(s: Seq<Seq<char>>, k: int) -> nat
    decreases k,
{
    if k <= 0 {
        0
    } else {
        let prev = max_count_upto(s, k - 1);
        let c = count_in(s, s[k - 1]);
        if c > prev { c } else { prev }
    }
}

/// The occurrence count of the most frequent token of `s`.
pub open spec fn max_count(s: Seq<Seq<char>>) -> nat {
    max_count_upto(s, s.len() as int)
}

/// Repetition density of a token sequence: the most frequent token's count
/// over the number of tokens, and exactly `0 / 1` for no tokens.
pub open spec fn repetition_of(s: Seq<Seq<char>>) -> (int, int) {
    if s.len() == 0 {
        (0, 1)
    } else {
        (max_count(s) as int, s.len() as int)
    }
}

proof fn lemma_count_bounds(s: Seq<Seq<char>>, w: Seq<char>)
    ensures
        count_in(s, w) <= s.len(),
        s.contains(w) ==> count_in(s, w) >= 1,
    decreases s.len(),
{
    if s.len() > 0 {
        lemma_count_bounds(s.drop_last(), w);
        if s.contains(w) && s.last() != w {
            let i = choose|i: int| 0 <= i < s.len() && s[i] == w;
            assert(s.drop_last()[i] == w);
        }
    }
}

proof fn lemma_max_count_upto_bounds(s: Seq<Seq<char>>, k: int)
    requires
        0 <= k <= s.len(),
    ensures
        max_count_upto(s, k) <= s.len(),
        k > 0 ==> max_count_upto(s, k) >= 1,
    decreases k,
{
    if k > 0 {
        lemma_max_count_upto_bounds(s, k - 1);
        lemma_count_bounds(s, s[k - 1]);
    }
}

/// A repetition density lies in `(0, 1]` when there are tokens, and is
/// exactly zero when there are none.
pub proof fn lemma_repetition_in_unit(s: Seq<Seq<char>>)
    ensures
        s.len() == 0 ==> repetition_of(s) == (0int, 1int),
        s.len() > 0 ==> 0 < repetition_of(s).0 <= repetition_of(s).1,
{
    if s.len() > 0 {
        lemma_max_count_upto_bounds(s, s.len() as int);
    }
}

/// Counts the tokens equal to `w`.
fn count_equal(tokens: &Vec<String>, w: &String) -> (r: usize)
    ensures
        r == count_in(strings_view(tokens@), w@),
{
    let ghost s = strings_view(tokens@);
    let mut c: usize = 0;
    let mut j: usize = 0;
    while j < tokens.len()
        invariant
            j <= tokens.len(),
            s == strings_view(tokens@),
            c == count_in(s.take(j as int), w@),
            c <= j,
        decreases tokens.len() - j,
    {
        proof {
            assert(s.take(j + 1).drop_last() =~= s.take(j as int));
        }
        if tokens[j] == *w {
            c = c + 1;
        }
        j = j + 1;
    }
    proof {
        assert(s.take(j as int) =~= s);
    }
    c
}

/// Repetition density of a token sequence.
pub fn repetition_of_tokens(tokens: &Vec<String>) -> (r: Fraction)
    ensures
        r.pair() == repetition_of(strings_view(tokens@)),
{
    let ghost s = strings_view(tokens@);
    let n = tokens.len();
    if n == 0 {
        return Fraction { num: 0, den: 1 };
    }
    let mut best: usize = 0;
    let mut i: usize = 0;
    while i < n
        invariant
            n == tokens.len(),
            i <= n,
            s == strings_view(tokens@),
            best == max_count_upto(s, i as int),
        decreases n - i,
    {
        let c = count_equal(tokens, &tokens[i]);
        if c > best {
            best = c;
        }
        i = i + 1;
    }
    Fraction { num: best as u128, den: n as u128 }
}

/// Repetition density of `message`: the count of its most frequent token
/// over its number of tokens, `0 / 1` when it has none.
pub fn compute_repetition_density(message: &str) -> (r: Fraction)
    ensures
        r.pair() == repetition_of(tokens_of(message@)),
        r.den <= message@.len() || r.den == 1,
        r.in_unit(),
{
    let tokens = tokenize(message);
    proof {
        lemma_repetition_in_unit(tokens_of(message@));
    }
    repetition_of_tokens(&tokens)
}

} // verus!
