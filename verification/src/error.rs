//! Public failures at pattern, build, and input boundaries.
use vstd::prelude::*;

use crate::types::{PatternId, Utf16Span};

verus! {

/// A pattern registration, matcher build, or scan failure.
///
/// Expected invalid input is returned as an error and does not panic.
#[derive(Clone, Copy, Debug, PartialEq, Eq, Structural)]
#[non_exhaustive]
pub enum Error {
    /// The same caller-provided pattern ID was registered more than once.
    DuplicatePatternId {
        /// ID that had already been registered.
        pattern_id: PatternId,
    },
    /// A pattern contained no code units.
    EmptyPattern {
        /// ID supplied with the empty pattern.
        pattern_id: PatternId,
    },
    /// A pattern used syntax or a code unit outside the supported language.
    UnsupportedPattern {
        /// ID supplied with the rejected pattern.
        pattern_id: PatternId,
        /// Location of the rejected UTF-16 code unit.
        span: Utf16Span,
        /// Rejected UTF-16 code unit.
        code_unit: u16,
    },
    /// A pattern contained malformed syntax.
    InvalidPattern {
        /// ID supplied with the malformed pattern.
        pattern_id: PatternId,
        /// Smallest useful UTF-16 span containing the malformed syntax.
        span: Utf16Span,
    },
    /// Groups were nested beyond the supported depth.
    PatternNestingTooDeep {
        /// ID supplied with the rejected pattern.
        pattern_id: PatternId,
        /// Location of the group that exceeded the limit.
        span: Utf16Span,
    },
    /// No patterns were registered before building.
    NoPatterns,
    /// A worker count of zero was requested.
    InvalidWorkerCount,
    /// A configured scoped worker could not be started.
    WorkerUnavailable,
    /// The compiled automaton would exceed its dense state-ID range.
    PatternSetTooLarge,
    /// A pattern position could not be represented as a public UTF-16 offset.
    PatternTooLarge {
        /// ID supplied with the oversized pattern.
        pattern_id: PatternId,
    },
    /// An input position could not be represented as a public UTF-16 offset.
    InputTooLarge,
}

} // verus!
