//! Generation and classification of near-miss variants of short phrases.
//!
//! A phrase is a sequence of lowercase ASCII words separated by single
//! spaces.  The mutation generator explores all phrases reachable from a
//! source phrase within a bounded number of single-character edits and
//! word-boundary adjustments, recording each candidate at the least depth
//! at which it is found.  A family of lexical oracles then scores every
//! candidate word against dictionary-backed knowledge sources.

pub mod cache;
pub mod diagnostics;
pub mod format;
pub mod mutation;
pub mod phrase;
pub mod relation;
pub mod spellcheck;
pub mod spellchecking;
pub mod types;
