//! Rust-native many-pattern matching with explicit UTF-16 coordinates.
//!
//! A matcher is built once from caller-identified patterns and reused across
//! inputs. The supported language covers UTF-16 literals, dot, character
//! classes, ranges, escapes, ASCII shorthand classes, alternation, grouping
//! without capture semantics, greedy repetition, the case-insensitive prefix
//! flag, line anchors, and ASCII word boundaries. For each pattern and each
//! start position the scan reports the longest non-empty match beginning
//! there.
#![allow(unused_imports)]

pub mod error;
pub mod types;

pub use error::Error;
pub use types::{Match, PatternFlags, PatternId, Utf16Span, Utf16Text};
pub use api::{Matcher, MatcherBuilder};
pub mod predicate;
pub mod hir;
pub mod case_fold;
pub mod parser;
pub mod nfa;
pub mod semantics;
pub mod language;
pub mod closure;
pub mod engine;
pub mod cache;
pub mod bits;
pub mod prefilter;
pub mod necessary;
pub mod cohort;
pub mod api;
pub mod experimental;
pub mod evidence;
pub mod harness;
pub mod calendar;
pub mod comparison;
pub mod five_hash;
pub mod parity;
pub mod report;
pub mod repetition;
pub mod normalization;
