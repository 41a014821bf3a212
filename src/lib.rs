//! Scores a short message against a topic from two exact rational signals:
//! how repetitive the message is, and how far its words drift from the topic.

mod config;
mod decimal;
mod density;
mod drift;
mod fraction;
mod score;
mod text;
mod trace;

pub use crate::config::{WordMathConfig, HALF};
pub use crate::decimal::{parse_decimal, parse_weight, Decimal, WeightError, MAX_UNITS, UNIT};
pub use crate::density::{compute_repetition_density, repetition_of_tokens};
pub use crate::drift::{compute_topic_drift, drift_of_tokens};
pub use crate::fraction::Fraction;
pub use crate::score::{score_linear, MAX_SIGNAL};
pub use crate::text::tokenize;
pub use crate::trace::{
    analyze_at, analyze_message_with_trace, generate_hex_id, hex_id_of, WordMathAnalysis,
    WordMathTrace,
};
