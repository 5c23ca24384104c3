//! An interpreter for a self-rewriting four-symbol string language.
//!
//! A run starts from a sequence of symbols. Each step decodes a pattern and a
//! template from the front of the sequence, matches the pattern against what
//! is left, and on a match puts the expanded template in place of the matched
//! part. While decoding, seven-symbol words are set aside in a log.

pub mod base;
pub mod error;
pub mod rope;
pub mod dna;
pub mod interpreter;
pub mod literals;
pub mod pattern;
pub mod template;
pub mod match_replace;
pub mod image;
pub mod drawer;
pub mod prefixes;
