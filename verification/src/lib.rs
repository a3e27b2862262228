//! A chat-trigger recognition engine.
//!
//! Given a message's text, its normalized tokens and a catalog of
//! configured triggers ("tags"), the engine decides which tag, if any,
//! matches the message. Exact regular-expression tags take precedence
//! over fuzzy edit-distance tags, and within each class whole-message
//! tags take precedence over per-token tags; ties are broken by a
//! uniform random draw. Fuzzy scores are exact rationals: the
//! Unicode-aware Levenshtein distance over the larger character count.
//! The tokenizer excises known spans from the text before splitting it
//! on a fixed separator class and lowercasing the tokens.

pub mod choice;
pub mod distance;
pub mod logfilter;
pub mod pattern;
pub mod recognize;
pub mod similar;
pub mod tags;
pub mod text;
pub mod tokenizer;
