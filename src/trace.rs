use crate::config::WordMathConfig;
use crate::density::{compute_repetition_density, repetition_of};
use crate::drift::{compute_topic_drift, text_drift};
use crate::fraction::Fraction;
use crate::score::{score_linear, score_of, MAX_SIGNAL};
use crate::text::tokens_of;
use vstd::prelude::*;
use vstd::string::{StrSliceExecFns, StringExecFns};

verus! {

/// The three signals of one analysis.
#[derive(Clone, Copy, Debug, PartialEq, Eq, Structural)]
pub struct WordMathAnalysis {
    pub y_repetition: Fraction,
    pub z_drift: Fraction,
    pub score: Fraction,
}

/// Audit record of one analysis: an identifier and the character counts of
/// the two texts.
#[derive(Clone, Debug)]
pub struct WordMathTrace {
    pub hex_id: String,
    pub message_len: usize,
    pub topic_len: usize,
}

/// The lowercase hexadecimal digit of `d`, for `d < 16`.
pub open spec fn hex_char(d: int) -> char {
    seq!['0', '1', '2', '3', '4', '5', '6', '7', '8', '9', 'a', 'b', 'c', 'd', 'e', 'f'][d]
}

/// The last `k` hexadecimal digits of `v`, most significant first.
pub open spec fn hex_of(v: nat, k: nat) -> Seq<char>
    decreases k,
{
    if k == 0 {
        Seq::empty()
    } else {
        hex_of(v / 16, (k - 1) as nat).push(hex_char((v % 16) as int))
    }
}

pub open spec fn is_hex_char(c: char) -> bool {
    ('0' <= c <= '9') || ('a' <= c <= 'f')
}

/// Relies on `SystemTime::now`: nanoseconds since the Unix epoch, zero for a
/// clock set before it. Nothing is known of the value.
#[verifier::external_body]
fn clock_nanos() -> (r: u128) {
    std::time::SystemTime::now().duration_since(std::time::UNIX_EPOCH).unwrap_or_default().as_nanos()
}

/// The last `k` hexadecimal digits of `v`.
fn hex_string(v: u64, k: u64) -> (r: String)
    ensures
        r@ == hex_of(v as nat, k as nat),
    decreases k,
{
    if k == 0 {
        String::new()
    } else {
        let mut r = hex_string(v / 16, k - 1);
        let d = (v % 16) as usize;
        let digits = "0123456789abcdef";
        proof {
            reveal_strlit("0123456789abcdef");
            assert(digits@ =~= seq![
                '0', '1', '2', '3', '4', '5', '6', '7', '8', '9', 'a', 'b', 'c', 'd', 'e', 'f',
            ]);
        }
        let one = digits.substring_char(d, d + 1);
        proof {
            assert(one@ =~= seq![hex_char(d as int)]);
        }
        r.append(one);
        proof {
            assert(r@ =~= hex_of((v / 16) as nat, (k - 1) as nat).push(hex_char(d as int)));
        }
        r
    }
}

proof fn lemma_hex_shape(v: nat, k: nat)
    ensures
        hex_of(v, k).len() == k,
        forall|i: int| 0 <= i < k ==> is_hex_char(#[trigger] hex_of(v, k)[i]),
    decreases k,
{
    if k > 0 {
        lemma_hex_shape(v / 16, (k - 1) as nat);
        let d = (v % 16) as int;
        assert(is_hex_char(hex_char(d))) by {
            assert(0 <= d < 16);
        }
    }
}

/// The identifier for a clock reading: sixteen lowercase hexadecimal digits
/// of the reading taken modulo 2^64.
pub fn hex_id_of(nanos: u128) -> (r: String)
    ensures
        r@ == hex_of((nanos % 0x1_0000_0000_0000_0000) as nat, 16),
        r@.len() == 16,
        forall|i: int| 0 <= i < 16 ==> is_hex_char(#[trigger] r@[i]),
{
    let v = (nanos % 0x1_0000_0000_0000_0000) as u64;
    proof {
        lemma_hex_shape(v as nat, 16);
    }
    hex_string(v, 16)
}

/// An identifier from the current time: sixteen lowercase hexadecimal digits.
pub fn generate_hex_id() -> (r: String)
    ensures
        r@.len() == 16,
        forall|i: int| 0 <= i < 16 ==> is_hex_char(#[trigger] r@[i]),
{
    hex_id_of(clock_nanos())
}

/// Analyzes `message` against `topic` with a given clock reading for the
/// trace identifier.
pub fn analyze_at(message: &str, topic: &str, cfg: WordMathConfig, nanos: u128) -> (r: (
    WordMathAnalysis,
    WordMathTrace,
))
    requires
        cfg.wf(),
        message@.len() + topic@.len() <= MAX_SIGNAL,
    ensures
        r.0.y_repetition.pair() == repetition_of(tokens_of(message@)),
        r.0.z_drift.pair() == text_drift(message@, topic@),
        r.0.score.pair() == score_of(
            r.0.y_repetition.pair(),
            r.0.z_drift.pair(),
            cfg.alpha as int,
            cfg.beta as int,
            cfg.scale as int,
        ),
        r.0.y_repetition.in_unit(),
        r.0.z_drift.in_unit(),
        r.0.score.in_unit(),
        r.1.hex_id@ == hex_of((nanos % 0x1_0000_0000_0000_0000) as nat, 16),
        r.1.message_len == message@.len(),
        r.1.topic_len == topic@.len(),
{
    let y = compute_repetition_density(message);
    let z = compute_topic_drift(message, topic);
    let score = score_linear(y, z, cfg);
    let analysis = WordMathAnalysis { y_repetition: y, z_drift: z, score };
    let trace = WordMathTrace {
        hex_id: hex_id_of(nanos),
        message_len: message.unicode_len(),
        topic_len: topic.unicode_len(),
    };
    (analysis, trace)
}

/// Analyzes `message` against `topic`: repetition, drift and score, with a
/// trace stamped from the current time. The two texts together hold at most
/// `MAX_SIGNAL` characters, which bounds every token count.
pub fn analyze_message_with_trace(message: &str, topic: &str, cfg: WordMathConfig) -> (r: (
    WordMathAnalysis,
    WordMathTrace,
))
    requires
        cfg.wf(),
        message@.len() + topic@.len() <= MAX_SIGNAL,
    ensures
        r.0.y_repetition.pair() == repetition_of(tokens_of(message@)),
        r.0.z_drift.pair() == text_drift(message@, topic@),
        r.0.score.pair() == score_of(
            r.0.y_repetition.pair(),
            r.0.z_drift.pair(),
            cfg.alpha as int,
            cfg.beta as int,
            cfg.scale as int,
        ),
        r.0.y_repetition.in_unit(),
        r.0.z_drift.in_unit(),
        r.0.score.in_unit(),
        r.1.hex_id@.len() == 16,
        forall|i: int| 0 <= i < 16 ==> is_hex_char(#[trigger] r.1.hex_id@[i]),
        r.1.message_len == message@.len(),
        r.1.topic_len == topic@.len(),
{
    let nanos = clock_nanos();
    let r = analyze_at(message, topic, cfg, nanos);
    proof {
        lemma_hex_shape((nanos % 0x1_0000_0000_0000_0000) as nat, 16);
    }
    r
}

pub open spec fn pow16(k: nat) -> nat
    decreases k,
{
    if k == 0 {
        1
    } else {
        16 * pow16((k - 1) as nat)
    }
}

proof fn lemma_hex_char_code(d: int)
    requires
        0 <= d < 16,
    ensures
        hex_char(d) as int == if d < 10 { 48 + d } else { 87 + d },
{
    assert(d == 0 || d == 1 || d == 2 || d == 3 || d == 4 || d == 5 || d == 6 || d == 7 || d == 8
        || d == 9 || d == 10 || d == 11 || d == 12 || d == 13 || d == 14 || d == 15);
}

proof fn lemma_hex_of_injective(v: nat, w: nat, k: nat)
    requires
        v < pow16(k),
        w < pow16(k),
        hex_of(v, k) == hex_of(w, k),
    ensures
        v == w,
    decreases k,
{
    if k > 0 {
        let pv = hex_of(v / 16, (k - 1) as nat);
        let pw = hex_of(w / 16, (k - 1) as nat);
        lemma_hex_shape(v / 16, (k - 1) as nat);
        lemma_hex_shape(w / 16, (k - 1) as nat);
        assert(hex_of(v, k).last() == hex_char((v % 16) as int));
        assert(hex_of(w, k).last() == hex_char((w % 16) as int));
        lemma_hex_char_code((v % 16) as int);
        lemma_hex_char_code((w % 16) as int);
        assert(pv =~= hex_of(v, k).drop_last());
        assert(pw =~= hex_of(w, k).drop_last());
        lemma_hex_of_injective(v / 16, w / 16, (k - 1) as nat);
    }
}

/// Clock readings that differ modulo 2^64 give different identifiers.
pub proof fn lemma_hex_ids_distinct(a: u128, b: u128)
    requires
        a % 0x1_0000_0000_0000_0000 != b % 0x1_0000_0000_0000_0000,
    ensures
        hex_of((a % 0x1_0000_0000_0000_0000) as nat, 16) != hex_of(
            (b % 0x1_0000_0000_0000_0000) as nat,
            16,
        ),
{
    reveal_with_fuel(pow16, 17);
    assert(pow16(16) == 0x1_0000_0000_0000_0000);
    if hex_of((a % 0x1_0000_0000_0000_0000) as nat, 16) == hex_of(
        (b % 0x1_0000_0000_0000_0000) as nat,
        16,
    ) {
        lemma_hex_of_injective(
            (a % 0x1_0000_0000_0000_0000) as nat,
            (b % 0x1_0000_0000_0000_0000) as nat,
            16,
        );
    }
}

} // verus!
