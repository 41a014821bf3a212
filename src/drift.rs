use crate::fraction::Fraction;
use crate::text::{strings_view, tokenize, tokens_of};
use vstd::prelude::*;

verus! {

broadcast use {vstd::set::group_set_axioms, vstd::set_lib::group_set_lib_default, vstd::seq_lib::group_seq_properties};

/// Jaccard distance between two finite token sets: `0 / 1` when both are
/// empty, `1 / 1` when exactly one is, else `(|M ∪ T| - |M ∩ T|) / |M ∪ T|`.
pub open spec fn drift_of(m: Set<Seq<char>>, t: Set<Seq<char>>) -> (int, int) {
    if m.len() == 0 && t.len() == 0 {
        (0, 1)
    } else if m.len() == 0 || t.len() == 0 {
        (1, 1)
    } else {
        ((m + t).len() - m.intersect(t).len(), (m + t).len() as int)
    }
}

/// Drift between two texts, over the sets of their tokens.
pub open spec fn text_drift(message: Seq<char>, topic: Seq<char>) -> (int, int) {
    drift_of(tokens_of(message).to_set(), tokens_of(topic).to_set())
}

/// Whether some token equals `w`.
fn contains_token(tokens: &Vec<String>, w: &String) -> (r: bool)
    ensures
        r == strings_view(tokens@).contains(w@),
{
    let ghost s = strings_view(tokens@);
    let mut j: usize = 0;
    while j < tokens.len()
        invariant
            j <= tokens.len(),
            s == strings_view(tokens@),
            forall|k: int| 0 <= k < j ==> s[k] != w@,
        decreases tokens.len() - j,
    {
        if tokens[j] == *w {
            assert(s[j as int] == w@);
            return true;
        }
        j = j + 1;
    }
    false
}

/// The tokens without repeats, holding the same set.
fn distinct_tokens(tokens: &Vec<String>) -> (r: Vec<String>)
    ensures
        strings_view(r@).no_duplicates(),
        strings_view(r@).to_set() == strings_view(tokens@).to_set(),
        r.len() <= tokens.len(),
{
    let ghost s = strings_view(tokens@);
    let mut out: Vec<String> = Vec::new();
    let mut i: usize = 0;
    while i < tokens.len()
        invariant
            i <= tokens.len(),
            s == strings_view(tokens@),
            strings_view(out@).no_duplicates(),
            strings_view(out@).to_set() == s.take(i as int).to_set(),
            out.len() <= i,
        decreases tokens.len() - i,
    {
        let ghost prev = strings_view(out@);
        proof {
            assert(s.take(i + 1) =~= s.take(i as int).push(s[i as int]));
            assert(s[i as int] == tokens@[i as int]@);
        }
        if !contains_token(&out, &tokens[i]) {
            let w = tokens[i].clone();
            out.push(w);
            proof {
                assert(strings_view(out@) =~= prev.push(w@));
                assert(strings_view(out@).to_set() =~= prev.to_set().insert(w@));
                assert(s.take(i + 1).to_set() =~= s.take(i as int).to_set().insert(w@));
            }
        } else {
            proof {
                assert(s.take(i + 1).to_set() =~= s.take(i as int).to_set().insert(s[i as int]));
                assert(prev.to_set().contains(s[i as int]));
                assert(s.take(i + 1).to_set() =~= prev.to_set());
            }
        }
        i = i + 1;
    }
    proof {
        assert(s.take(i as int) =~= s);
    }
    out
}

/// How many of the distinct message tokens also occur among the topic's.
fn shared_count(m: &Vec<String>, t: &Vec<String>) -> (r: usize)
    requires
        strings_view(m@).no_duplicates(),
    ensures
        r == strings_view(m@).to_set().intersect(strings_view(t@).to_set()).len(),
{
    let ghost ms = strings_view(m@);
    let ghost ts = strings_view(t@).to_set();
    let mut c: usize = 0;
    let mut i: usize = 0;
    proof {
        assert(ms.take(0).to_set() =~= Set::empty());
        assert(ms.take(0).to_set().intersect(ts) =~= Set::empty());
    }
    while i < m.len()
        invariant
            i <= m.len(),
            ms == strings_view(m@),
            ts == strings_view(t@).to_set(),
            ms.no_duplicates(),
            c == ms.take(i as int).to_set().intersect(ts).len(),
            c <= i,
        decreases m.len() - i,
    {
        let ghost x = ms[i as int];
        proof {
            assert(x == m@[i as int]@);
            assert(ms.take(i + 1) =~= ms.take(i as int).push(x));
            assert(ms.take(i + 1).to_set() =~= ms.take(i as int).to_set().insert(x));
            if ms.take(i as int).to_set().contains(x) {
                let k = choose|k: int| 0 <= k < i && ms.take(i as int)[k] == x;
                assert(ms[k] == ms[i as int]);
            }
            assert(!ms.take(i as int).to_set().intersect(ts).contains(x));
        }
        if contains_token(t, &m[i]) {
            proof {
                assert(ms.take(i + 1).to_set().intersect(ts) =~= ms.take(i as int).to_set().intersect(
                    ts,
                ).insert(x));
            }
            c = c + 1;
        } else {
            proof {
                assert(ms.take(i + 1).to_set().intersect(ts) =~= ms.take(i as int).to_set().intersect(
                    ts,
                ));
            }
        }
        i = i + 1;
    }
    proof {
        assert(ms.take(i as int) =~= ms);
    }
    c
}

/// Drift between two token sequences, over their sets.
pub fn drift_of_tokens(m: &Vec<String>, t: &Vec<String>) -> (r: Fraction)
    ensures
        r.pair() == drift_of(strings_view(m@).to_set(), strings_view(t@).to_set()),
        r.den <= m.len() + t.len() || r.den == 1,
        r.in_unit(),
{
    let dm = distinct_tokens(m);
    let dt = distinct_tokens(t);
    let ghost ms = strings_view(m@).to_set();
    let ghost ts = strings_view(t@).to_set();
    proof {
        strings_view(dm@).unique_seq_to_set();
        strings_view(dt@).unique_seq_to_set();
        vstd::set_lib::lemma_set_intersect_union_lens(ms, ts);
    }
    let nm = dm.len();
    let nt = dt.len();
    if nm == 0 && nt == 0 {
        return Fraction { num: 0, den: 1 };
    }
    if nm == 0 || nt == 0 {
        return Fraction { num: 1, den: 1 };
    }
    let shared = shared_count(&dm, &dt);
    proof {
        vstd::set_lib::lemma_len_intersect(ms, ts);
        vstd::set_lib::lemma_len_intersect(ts, ms);
        assert(ms.intersect(ts) =~= ts.intersect(ms));
    }
    let union = nm as u128 + nt as u128 - shared as u128;
    Fraction { num: union - shared as u128, den: union }
}

/// Topic drift of `message` from `topic`: the Jaccard distance between
/// their token sets.
pub fn compute_topic_drift(message: &str, topic: &str) -> (r: Fraction)
    ensures
        r.pair() == text_drift(message@, topic@),
        r.den <= message@.len() + topic@.len() || r.den == 1,
        r.in_unit(),
{
    let m = tokenize(message);
    let t = tokenize(topic);
    drift_of_tokens(&m, &t)
}

/// Drift does not depend on which text is the message and which the topic.
pub proof fn lemma_drift_symmetric(a: Seq<char>, b: Seq<char>)
    ensures
        text_drift(a, b) == text_drift(b, a),
{
    let sa = tokens_of(a).to_set();
    let sb = tokens_of(b).to_set();
    assert(sa + sb =~= sb + sa);
    assert(sa.intersect(sb) =~= sb.intersect(sa));
}

/// Texts whose token sets agree have no drift.
pub proof fn lemma_drift_identical_sets(a: Seq<char>, b: Seq<char>)
    requires
        tokens_of(a).to_set() == tokens_of(b).to_set(),
    ensures
        text_drift(a, b).0 == 0,
{
    let s = tokens_of(a).to_set();
    assert(s + s =~= s);
    assert(s.intersect(s) =~= s);
}

/// When exactly one text has tokens, the drift is one.
pub proof fn lemma_drift_one_empty(a: Seq<char>, b: Seq<char>)
    requires
        (tokens_of(a).len() == 0) != (tokens_of(b).len() == 0),
    ensures
        text_drift(a, b) == (1int, 1int),
{
    let sa = tokens_of(a).to_set();
    let sb = tokens_of(b).to_set();
    if tokens_of(a).len() == 0 {
        assert(sa =~= Set::empty());
        assert(sb.contains(tokens_of(b)[0]));
    } else {
        assert(sb =~= Set::empty());
        assert(sa.contains(tokens_of(a)[0]));
    }
}

} // verus!
