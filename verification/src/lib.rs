//! A small regular-expression matcher.
//!
//! A pattern is tokenized into typed, quantified tokens (`pattern_type`),
//! and a backtracking matcher walks the tokens against a line of text
//! (`pattern_matching`).  The matcher is greedy: a quantified token first
//! consumes as much input as it can and gives characters back one at a
//! time when a later token fails; among group alternatives the leftmost
//! one wins.  Malformed patterns (an unterminated character class or
//! group) are reported as typed errors rather than treated as a failed
//! match.

pub mod pattern_matching;
pub mod pattern_type;
pub mod properties;
