use unicode_segmentation::UnicodeSegmentation;
use vstd::prelude::*;

verus! {

/// The words of a text under Unicode word segmentation, in order.
pub uninterp spec fn words_of(s: Seq<char>) -> Seq<Seq<char>>;

/// The lowercase form of a string.
pub uninterp spec fn lower_of(s: Seq<char>) -> Seq<char>;

/// The views of a vector of strings.
pub open spec fn strings_view(v: Seq<String>) -> Seq<Seq<char>> {
    v.map_values(|w: String| w@)
}

/// The token sequence of a text: its words, each lowercased.
pub open spec fn tokens_of(s: Seq<char>) -> Seq<Seq<char>> {
    words_of(s).map_values(|w: Seq<char>| lower_of(w))
}

/// Relies on `UnicodeSegmentation::unicode_words`: the words of `s` in order.
/// Each word is a non-empty slice of `s` and no two overlap, so there are
/// no more words than characters.
#[verifier::external_body]
fn split_words(s: &str) -> (r: Vec<String>)
    ensures
        strings_view(r@) == words_of(s@),
        r.len() <= s@.len(),
{
    s.unicode_words().map(|w| w.to_string()).collect()
}

/// Relies on `str::to_lowercase`: the lowercase form of `s`.
#[verifier::external_body]
fn lowercase(s: &String) -> (r: String)
    ensures
        r@ == lower_of(s@),
{
    s.to_lowercase()
}

/// Splits `text` into lowercase word tokens.
pub fn tokenize(text: &str) -> (r: Vec<String>)
    ensures
        strings_view(r@) == tokens_of(text@),
        r.len() <= text@.len(),
{
    let words = split_words(text);
    let ghost ws = strings_view(words@);
    let mut out: Vec<String> = Vec::new();
    let mut i: usize = 0;
    while i < words.len()
        invariant
            i <= words.len(),
            ws == strings_view(words@),
            ws == words_of(text@),
            strings_view(out@) == ws.take(i as int).map_values(|w: Seq<char>| lower_of(w)),
        decreases words.len() - i,
    {
        let low = lowercase(&words[i]);
        let ghost prev = out@;
        out.push(low);
        proof {
            assert(ws[i as int] == words@[i as int]@);
            assert(out@ == prev.push(low));
            assert(strings_view(out@) =~= strings_view(prev).push(low@));
            assert(strings_view(out@) =~= ws.take(i + 1).map_values(|w: Seq<char>| lower_of(w)));
        }
        i = i + 1;
    }
    proof {
        assert(ws.take(i as int) =~= ws);
    }
    out
}

} // verus!
