//! Explicit assertion-prefix specialization for narrowly eligible pattern sets.
//!
//! The separate matcher proves at construction time that every
//! assertion-bearing pattern begins with one shared five-unit ASCII prefix.
//! A scan of a large, sparse input then runs the assertion-bearing patterns
//! only at the starts where that prefix occurs; every other input runs the
//! exact generic scan and reports why.
use vstd::prelude::*;

use crate::api::{cohort_patterns, partition_outcome, MatcherBuilder, MatcherPartition, registration_outcome};
use crate::cohort::{prefix_summary, summary_spec};
use crate::engine::{collect_at_starts, deliver, event_views, ScanStats};
use crate::error::Error;
use crate::hir::{hir_well_formed, uses_assertions_spec, HirPattern};
use crate::prefilter::{
    count_set, set_positions, CandidateBitmap, DENSITY_SAMPLE_UNITS, MIN_LITERAL_INPUT_UNITS,
    MIN_LITERAL_PATTERN_COUNT,
};
use crate::language::{matches_spec, sequences_nonempty};
use crate::semantics::scan_events;
use crate::types::{utf16_of_chars, Match, PatternFlags, PatternId, Utf16Text};

verus! {

/// Length of the prefix shared by the assertion-bearing patterns.
pub const SHARED_PREFIX_UNITS: usize = 5;

/// A statically proven v1 assertion-prefix capability.
#[derive(Clone, Copy, Debug, PartialEq, Eq)]
pub struct StaticEligibility {
    assertion_pattern_count: usize,
    shared_ascii_prefix: [u8; 5],
}

impl View for StaticEligibility {
    type V = (usize, Seq<u8>);

    closed spec fn view(&self) -> (usize, Seq<u8>) {
        (self.assertion_pattern_count, self.shared_ascii_prefix@)
    }
}

impl StaticEligibility {
    /// Returns the number of assertion-bearing patterns covered by the proof.
    pub fn assertion_pattern_count(self) -> (count: usize)
        ensures
            count == self@.0,
    {
        self.assertion_pattern_count
    }

    /// Returns the shared five-unit ASCII prefix used to discover candidates.
    pub fn shared_ascii_prefix(self) -> (prefix: [u8; 5])
        ensures
            prefix@ == self@.1,
    {
        self.shared_ascii_prefix
    }

    /// Returns the minimum assertion-bearing pattern count required by v1.
    pub fn minimum_assertion_pattern_count() -> (minimum: usize)
        ensures
            minimum == MIN_LITERAL_PATTERN_COUNT,
    {
        MIN_LITERAL_PATTERN_COUNT
    }
}

/// Why a pattern set cannot construct the v1 matcher.
#[derive(Clone, Copy, Debug, PartialEq, Eq, Structural)]
#[non_exhaustive]
pub enum StaticIneligibility {
    /// No registered pattern uses an assertion.
    NoAssertionBearingPatterns,
    /// The assertion-bearing cohort is below the frozen v1 minimum.
    TooFewAssertionBearingPatterns {
        /// Number of assertion-bearing patterns that were registered.
        found: usize,
        /// Minimum number required by this version.
        minimum: usize,
    },
    /// The assertion-bearing patterns do not prove one shared five-unit ASCII prefix.
    NoSharedFiveUnitAsciiPrefix,
}

/// Failure while registering or compiling an experimental matcher.
#[derive(Clone, Copy, Debug, PartialEq, Eq, Structural)]
#[non_exhaustive]
pub enum BuildError {
    /// An ordinary registration or compilation check failed.
    Matcher(Error),
    /// The pattern set cannot use the versioned specialization.
    Ineligible(StaticIneligibility),
}

impl From<Error> for BuildError {
    fn from(error: Error) -> (converted: Self) {
        BuildError::Matcher(error)
    }
}

impl vstd::std_specs::convert::FromSpecImpl<Error> for BuildError {
    open spec fn obeys_from_spec() -> bool {
        true
    }

    open spec fn from_spec(error: Error) -> Self {
        BuildError::Matcher(error)
    }
}

/// Caller-selected behavior when the input cannot activate specialization.
#[derive(Clone, Copy, Debug, PartialEq, Eq, Structural)]
#[non_exhaustive]
pub enum ScanPolicy {
    /// Refuse the scan before delivering callbacks unless v1 will activate.
    RequireSpecialized,
    /// Preserve exact behavior through the generic scanner and report why.
    AllowExactFallback,
}

/// The exact reason v1 did not activate for one input.
#[derive(Clone, Copy, Debug, PartialEq, Eq, Structural)]
#[non_exhaustive]
pub enum FallbackReason {
    /// The input is shorter than the frozen v1 minimum.
    InputTooShort {
        /// Actual input length in UTF-16 code units.
        input_units: usize,
        /// Minimum input length required by this version.
        minimum_input_units: usize,
    },
    /// At least half of the frozen 64 Ki-unit sample consisted of candidates.
    CandidateSampleTooDense,
    /// Candidate acceleration was disabled by the internal configuration.
    AccelerationDisabled,
    /// Literal candidate acceleration was disabled by the internal configuration.
    LiteralAccelerationDisabled,
}

/// Backend that produced the reported match events.
#[derive(Clone, Copy, Debug, PartialEq, Eq, Structural)]
#[non_exhaustive]
pub enum ScanBackend {
    /// The versioned assertion-prefix candidate scanner activated.
    AssertionPrefixV1,
    /// The generic exact assertion scanner handled the input.
    GenericExactFallback,
}

/// Failure while scanning with an explicit policy.
#[derive(Clone, Copy, Debug, PartialEq, Eq, Structural)]
#[non_exhaustive]
pub enum ScanError {
    /// The exact engine rejected the input.
    Matcher(Error),
    /// `RequireSpecialized` could not activate for this input.
    SpecializationUnavailable {
        /// Exact dynamic reason for refusing before callback delivery.
        reason: FallbackReason,
    },
}

impl From<Error> for ScanError {
    fn from(error: Error) -> (converted: Self) {
        ScanError::Matcher(error)
    }
}

impl vstd::std_specs::convert::FromSpecImpl<Error> for ScanError {
    open spec fn obeys_from_spec() -> bool {
        true
    }

    open spec fn from_spec(error: Error) -> Self {
        ScanError::Matcher(error)
    }
}

/// How one input relates to the frozen activation rules.
#[derive(Clone, Copy, Debug, PartialEq, Eq, Structural)]
pub enum AssertionPrefixDecision {
    /// Start selection is disabled.
    Disabled,
    /// Literal start selection is disabled.
    LiteralDisabled,
    /// The input is below the minimum length.
    InputSize,
    /// The sample holds too many candidates.
    DenseSample,
    /// The specialized scan runs.
    Activated,
}

/// Observable outcome of one explicitly policy-controlled scan.
#[derive(Clone, Copy, Debug, PartialEq, Eq)]
pub struct ScanReport {
    policy: ScanPolicy,
    eligibility: StaticEligibility,
    backend: ScanBackend,
    fallback_reason: Option<FallbackReason>,
    candidate_count: usize,
    candidate_bytes: usize,
}

impl View for ScanReport {
    type V = (ScanPolicy, StaticEligibility, ScanBackend, Option<FallbackReason>, usize, usize);

    closed spec fn view(&self) -> Self::V {
        (
            self.policy,
            self.eligibility,
            self.backend,
            self.fallback_reason,
            self.candidate_count,
            self.candidate_bytes,
        )
    }
}

impl ScanReport {
    /// Returns the policy named by the caller for this scan.
    pub fn requested_policy(self) -> (policy: ScanPolicy)
        ensures
            policy == self@.0,
    {
        self.policy
    }

    /// Returns the construction-time semantic proof.
    pub fn static_eligibility(self) -> (eligibility: StaticEligibility)
        ensures
            eligibility == self@.1,
    {
        self.eligibility
    }

    /// Returns the exact backend that produced the events.
    pub fn activated_backend(self) -> (backend: ScanBackend)
        ensures
            backend == self@.2,
    {
        self.backend
    }

    /// Returns whether the v1 specialized backend activated.
    pub fn specialized_backend_activated(self) -> (activated: bool)
        ensures
            activated == (self@.2 == ScanBackend::AssertionPrefixV1),
    {
        match self.backend {
            ScanBackend::AssertionPrefixV1 => true,
            ScanBackend::GenericExactFallback => false,
        }
    }

    /// Returns why the generic exact fallback ran, if it did.
    pub fn fallback_reason(self) -> (reason: Option<FallbackReason>)
        ensures
            reason == self@.3,
    {
        self.fallback_reason
    }

    /// Returns the unique candidate starts retained for semantic verification.
    pub fn candidate_count(self) -> (count: usize)
        ensures
            count == self@.4,
    {
        self.candidate_count
    }

    /// Returns the bytes retained by the scan-local candidate bitmap.
    pub fn candidate_bytes(self) -> (bytes: usize)
        ensures
            bytes == self@.5,
    {
        self.candidate_bytes
    }
}


/// The two cohorts of a list together need what the list needs.
proof fn lemma_cohort_needs(patterns: Seq<HirPattern>)
    ensures
        crate::nfa::patterns_state_need(cohort_patterns(patterns, false)) + crate::nfa::patterns_state_need(
            cohort_patterns(patterns, true),
        ) == crate::nfa::patterns_state_need(patterns),
        crate::nfa::patterns_predicate_need(cohort_patterns(patterns, false)) + crate::nfa::patterns_predicate_need(
            cohort_patterns(patterns, true),
        ) == crate::nfa::patterns_predicate_need(patterns),
    decreases patterns.len(),
{
    if patterns.len() > 0 {
        lemma_cohort_needs(patterns.drop_last());
        let b = uses_assertions_spec(patterns.last().expression_spec());
        let t = cohort_patterns(patterns.drop_last(), b);
        assert(t.push(patterns.last()).drop_last() =~= t);
    }
}

proof fn lemma_cohort_concat(a: Seq<HirPattern>, b: Seq<HirPattern>, bearing: bool)
    ensures
        cohort_patterns(a + b, bearing) == cohort_patterns(a, bearing) + cohort_patterns(b, bearing),
    decreases b.len(),
{
    if b.len() == 0 {
        assert(a + b =~= a);
        assert(cohort_patterns(a, bearing) + cohort_patterns(b, bearing) =~= cohort_patterns(a, bearing));
    } else {
        assert((a + b).drop_last() =~= a + b.drop_last());
        assert((a + b).last() == b.last());
        lemma_cohort_concat(a, b.drop_last(), bearing);
        if uses_assertions_spec(b.last().expression_spec()) == bearing {
            assert(cohort_patterns(a, bearing) + cohort_patterns(b, bearing) =~= (cohort_patterns(a, bearing)
                + cohort_patterns(b.drop_last(), bearing)).push(b.last()));
        }
    }
}

proof fn lemma_cohort_membership(patterns: Seq<HirPattern>, bearing: bool, i: int)
    requires
        0 <= i < cohort_patterns(patterns, bearing).len(),
    ensures
        uses_assertions_spec(cohort_patterns(patterns, bearing)[i].expression_spec()) == bearing,
        patterns.contains(cohort_patterns(patterns, bearing)[i]),
    decreases patterns.len(),
{
    if patterns.len() > 0 {
        let rest = cohort_patterns(patterns.drop_last(), bearing);
        if i < rest.len() {
            lemma_cohort_membership(patterns.drop_last(), bearing, i);
            let x = rest[i];
            let j = choose|j: int| 0 <= j < patterns.drop_last().len() && patterns.drop_last()[j] == x;
            assert(patterns[j] == x);
        } else {
            assert(patterns[patterns.len() - 1] == patterns.last());
        }
    }
}

/// Splits `patterns` into its assertion-free and assertion-bearing cohorts,
/// each in registration order.
fn split_cohorts(patterns: Vec<HirPattern>) -> (cohorts: (Vec<HirPattern>, Vec<HirPattern>))
    ensures
        cohorts.0@ == cohort_patterns(patterns@, false),
        cohorts.1@ == cohort_patterns(patterns@, true),
{
    let ghost all = patterns@;
    let mut rest = patterns;
    let mut free_reversed: Vec<HirPattern> = Vec::new();
    let mut bearing_reversed: Vec<HirPattern> = Vec::new();
    proof {
        assert(all.skip(all.len() as int) =~= Seq::<HirPattern>::empty());
        assert(free_reversed@.reverse() =~= Seq::<HirPattern>::empty());
        assert(bearing_reversed@.reverse() =~= Seq::<HirPattern>::empty());
    }
    while rest.len() > 0
        invariant
            rest@.len() <= all.len(),
            rest@ == all.take(rest@.len() as int),
            free_reversed@.reverse() == cohort_patterns(all.skip(rest@.len() as int), false),
            bearing_reversed@.reverse() == cohort_patterns(all.skip(rest@.len() as int), true),
        decreases rest@.len(),
    {
        let ghost n = rest@.len() as int;
        let pattern = rest.pop().unwrap();
        let ghost single = seq![pattern];
        proof {
            assert(single.drop_last() =~= Seq::<HirPattern>::empty());
            assert(cohort_patterns(Seq::<HirPattern>::empty(), true) == Seq::<HirPattern>::empty());
            assert(cohort_patterns(Seq::<HirPattern>::empty(), false) == Seq::<HirPattern>::empty());
            assert(pattern == all[n - 1]);
            assert(all.skip(n - 1) =~= single + all.skip(n));
            lemma_cohort_concat(single, all.skip(n), false);
            lemma_cohort_concat(single, all.skip(n), true);
            assert(single.drop_last() =~= Seq::<HirPattern>::empty());
            assert(single.last() == pattern);
            assert(rest@ =~= all.take(n - 1));
        }
        if pattern.expression().uses_assertions() {
            let ghost before = bearing_reversed@;
            bearing_reversed.push(pattern);
            proof {
                assert(bearing_reversed@.reverse() =~= seq![pattern] + before.reverse());
                assert(cohort_patterns(single, true) =~= seq![pattern]);
                assert(cohort_patterns(single, false) =~= Seq::<HirPattern>::empty());
                assert(cohort_patterns(single, false) + cohort_patterns(all.skip(n), false) =~= cohort_patterns(all.skip(n), false));
            }
        } else {
            let ghost before = free_reversed@;
            free_reversed.push(pattern);
            proof {
                assert(free_reversed@.reverse() =~= seq![pattern] + before.reverse());
                assert(cohort_patterns(single, false) =~= seq![pattern]);
                assert(cohort_patterns(single, true) =~= Seq::<HirPattern>::empty());
                assert(cohort_patterns(single, true) + cohort_patterns(all.skip(n), true) =~= cohort_patterns(all.skip(n), true));
            }
        }
    }
    proof {
        assert(all.skip(0) =~= all);
    }
    (reverse_patterns(free_reversed), reverse_patterns(bearing_reversed))
}

fn reverse_patterns(patterns: Vec<HirPattern>) -> (reversed: Vec<HirPattern>)
    ensures
        reversed@ == patterns@.reverse(),
{
    let ghost original = patterns@;
    let mut rest = patterns;
    let mut reversed: Vec<HirPattern> = Vec::new();
    while rest.len() > 0
        invariant
            rest@ == original.take(rest@.len() as int),
            reversed@ == original.skip(rest@.len() as int).reverse(),
            rest@.len() <= original.len(),
        decreases rest@.len(),
    {
        let ghost n = rest@.len();
        let pattern = rest.pop().unwrap();
        reversed.push(pattern);
        proof {
            assert(rest@ =~= original.take(n - 1));
            assert(reversed@ =~= original.skip(n - 1).reverse());
        }
    }
    proof {
        assert(original.skip(0) =~= original);
    }
    reversed
}

/// The capped literal string every match of `pattern` begins with.
pub open spec fn summary_units(pattern: HirPattern) -> Seq<u16> {
    summary_spec(pattern.expression_spec()).0
}

/// Every unit is ASCII.
pub open spec fn ascii_units(units: Seq<u16>) -> bool {
    forall|i: int| 0 <= i < units.len() ==> #[trigger] units[i] < 128
}

/// Every pattern's summary begins with `prefix`.
pub open spec fn shares_prefix(patterns: Seq<HirPattern>, prefix: Seq<u16>) -> bool {
    forall|i: int|
        0 <= i < patterns.len() ==> summary_units(#[trigger] patterns[i]).len() >= SHARED_PREFIX_UNITS
            && summary_units(patterns[i]).take(SHARED_PREFIX_UNITS as int) == prefix
}

/// The five-unit ASCII prefix shared by every pattern, if there is one.
pub open spec fn shared_prefix_spec(patterns: Seq<HirPattern>) -> Option<Seq<u16>> {
    if patterns.len() > 0 && summary_units(patterns[0]).len() >= SHARED_PREFIX_UNITS {
        let prefix = summary_units(patterns[0]).take(SHARED_PREFIX_UNITS as int);
        if ascii_units(prefix) && shares_prefix(patterns, prefix) {
            Some(prefix)
        } else {
            None
        }
    } else {
        None
    }
}

/// Why `patterns` cannot build the v1 matcher, if it cannot.
pub open spec fn ineligibility_spec(patterns: Seq<HirPattern>) -> Option<StaticIneligibility> {
    let bearing = cohort_patterns(patterns, true);
    if bearing.len() == 0 {
        Some(StaticIneligibility::NoAssertionBearingPatterns)
    } else if bearing.len() < MIN_LITERAL_PATTERN_COUNT {
        Some(
            StaticIneligibility::TooFewAssertionBearingPatterns {
                found: bearing.len() as usize,
                minimum: MIN_LITERAL_PATTERN_COUNT,
            },
        )
    } else if shared_prefix_spec(bearing) is None {
        Some(StaticIneligibility::NoSharedFiveUnitAsciiPrefix)
    } else {
        None
    }
}

/// The five-unit ASCII prefix shared by every pattern of `patterns`.
fn shared_prefix(patterns: &[HirPattern]) -> (prefix: Option<Vec<u16>>)
    ensures
        match prefix {
            Some(units) => shared_prefix_spec(patterns@) == Some(units@),
            None => shared_prefix_spec(patterns@) is None,
        },
{
    if patterns.len() == 0 {
        return None;
    }
    let first = prefix_summary(patterns[0].expression());
    if first.units.len() < SHARED_PREFIX_UNITS {
        return None;
    }
    assert(summary_units(patterns@[0]) == first.units@);
    let mut prefix: Vec<u16> = Vec::new();
    let mut k: usize = 0;
    while k < SHARED_PREFIX_UNITS
        invariant
            k <= SHARED_PREFIX_UNITS,
            patterns@.len() > 0,
            summary_units(patterns@[0]) == first.units@,
            first.units@.len() >= SHARED_PREFIX_UNITS,
            prefix@ == first.units@.take(k as int),
            ascii_units(prefix@),
        decreases SHARED_PREFIX_UNITS - k,
    {
        let unit = first.units[k];
        if unit >= 128 {
            proof {
                assert(first.units@.take(SHARED_PREFIX_UNITS as int)[k as int] == unit);
            }
            return None;
        }
        prefix.push(unit);
        proof {
            assert(prefix@ =~= first.units@.take(k + 1));
        }
        k = k + 1;
    }
    let ghost wanted = first.units@.take(SHARED_PREFIX_UNITS as int);
    assert(summary_units(patterns@[0]) == first.units@);
    let mut i: usize = 0;
    while i < patterns.len()
        invariant
            i <= patterns@.len(),
            patterns@.len() > 0,
            wanted == summary_units(patterns@[0]).take(SHARED_PREFIX_UNITS as int),
            summary_units(patterns@[0]).len() >= SHARED_PREFIX_UNITS,
            ascii_units(wanted),
            prefix@ == wanted,
            prefix@.len() == SHARED_PREFIX_UNITS,
            shares_prefix(patterns@.take(i as int), wanted),
        decreases patterns@.len() - i,
    {
        let summary = prefix_summary(patterns[i].expression());
        assert(summary_units(patterns@[i as int]) == summary.units@);
        if summary.units.len() < SHARED_PREFIX_UNITS {
            proof {
                assert(!shares_prefix(patterns@, wanted));
            }
            return None;
        }
        let mut j: usize = 0;
        while j < SHARED_PREFIX_UNITS
            invariant
                j <= SHARED_PREFIX_UNITS,
                i < patterns@.len(),
                wanted == summary_units(patterns@[0]).take(SHARED_PREFIX_UNITS as int),
                summary_units(patterns@[0]).len() >= SHARED_PREFIX_UNITS,
                summary_units(patterns@[i as int]) == summary.units@,
                summary.units@.len() >= SHARED_PREFIX_UNITS,
                prefix@ == wanted,
                prefix@.len() == SHARED_PREFIX_UNITS,
                forall|m: int| 0 <= m < j ==> summary.units@[m] == prefix@[m],
            decreases SHARED_PREFIX_UNITS - j,
        {
            if summary.units[j] != prefix[j] {
                proof {
                    assert(summary.units@.take(SHARED_PREFIX_UNITS as int)[j as int] != wanted[j as int]);
                    assert(summary.units@.take(SHARED_PREFIX_UNITS as int) != wanted);
                    assert(!shares_prefix(patterns@, wanted));
                }
                return None;
            }
            j = j + 1;
        }
        proof {
            assert(summary.units@.take(SHARED_PREFIX_UNITS as int) =~= wanted);
            assert forall|m: int| 0 <= m < i + 1 implies summary_units(#[trigger] patterns@.take(i + 1)[m]).len()
                >= SHARED_PREFIX_UNITS && summary_units(patterns@.take(i + 1)[m]).take(SHARED_PREFIX_UNITS as int)
                == wanted by {
                if m < i {
                    assert(patterns@.take(i + 1)[m] == patterns@.take(i as int)[m]);
                }
            }
        }
        i = i + 1;
    }
    proof {
        assert(patterns@.take(i as int) =~= patterns@);
    }
    Some(prefix)
}

/// Whether `prefix` occurs at `position`.
pub open spec fn prefix_at(input: Seq<u16>, position: int, prefix: Seq<u16>) -> bool {
    0 <= position && position + prefix.len() <= input.len() && input.subrange(position, position
        + prefix.len()) == prefix
}

/// For each of the first `n` positions, whether `prefix` occurs there.
pub open spec fn candidate_bits(input: Seq<u16>, n: int, prefix: Seq<u16>) -> Seq<bool> {
    Seq::new(n as nat, |position: int| prefix_at(input, position, prefix))
}

fn occurs_at(input: &[u16], position: usize, prefix: &[u16]) -> (found: bool)
    ensures
        found == prefix_at(input@, position as int, prefix@),
{
    if position > input.len() || input.len() - position < prefix.len() {
        return false;
    }
    let total = input.len();
    let mut k: usize = 0;
    while k < prefix.len()
        invariant
            k <= prefix@.len(),
            total == input@.len(),
            position as int + prefix@.len() as int <= input@.len() as int,
            forall|m: int| 0 <= m < k ==> input@[position + m] == prefix@[m],
        decreases prefix@.len() - k,
    {
        let index: usize = position + k;
        if input[index] != prefix[k] {
            proof {
                assert(input@.subrange(position as int, position + prefix@.len())[k as int] != prefix@[k as int]);
            }
            return false;
        }
        k = k + 1;
    }
    proof {
        assert(input@.subrange(position as int, position + prefix@.len()) =~= prefix@);
    }
    true
}

/// The candidate starts among the first `n` positions.
fn candidate_bitmap(input: &[u16], n: usize, prefix: &[u16]) -> (bitmap: CandidateBitmap)
    ensures
        bitmap.well_formed(),
        bitmap.bit_len_spec() == n,
        bitmap@ == candidate_bits(input@, n as int, prefix@),
{
    let mut bitmap = CandidateBitmap::new(n);
    let mut position: usize = 0;
    while position < n
        invariant
            position <= n,
            bitmap.well_formed(),
            bitmap.bit_len_spec() == n,
            bitmap@.len() == n,
            forall|i: int| 0 <= i < n ==> #[trigger] bitmap@[i] == (i < position && prefix_at(input@, i, prefix@)),
        decreases n - position,
    {
        if occurs_at(input, position, prefix) {
            bitmap.insert(position);
        }
        position = position + 1;
    }
    proof {
        assert(bitmap@ =~= candidate_bits(input@, n as int, prefix@));
    }
    bitmap
}

/// The reason reported for a decision other than activation.
pub open spec fn fallback_reason_spec(decision: AssertionPrefixDecision, input_units: usize) -> FallbackReason {
    match decision {
        AssertionPrefixDecision::InputSize => FallbackReason::InputTooShort {
            input_units,
            minimum_input_units: MIN_LITERAL_INPUT_UNITS,
        },
        AssertionPrefixDecision::DenseSample => FallbackReason::CandidateSampleTooDense,
        AssertionPrefixDecision::Disabled => FallbackReason::AccelerationDisabled,
        _ => FallbackReason::LiteralAccelerationDisabled,
    }
}

fn fallback_reason(decision: AssertionPrefixDecision, input_units: usize) -> (reason: FallbackReason)
    requires
        decision != AssertionPrefixDecision::Activated,
    ensures
        reason == fallback_reason_spec(decision, input_units),
{
    match decision {
        AssertionPrefixDecision::InputSize => FallbackReason::InputTooShort {
            input_units,
            minimum_input_units: MIN_LITERAL_INPUT_UNITS,
        },
        AssertionPrefixDecision::DenseSample => FallbackReason::CandidateSampleTooDense,
        AssertionPrefixDecision::Disabled => FallbackReason::AccelerationDisabled,
        _ => FallbackReason::LiteralAccelerationDisabled,
    }
}

/// Collects patterns for the separate v1 matcher.
#[derive(Debug)]
pub struct AssertionPrefixMatcherBuilder {
    inner: MatcherBuilder,
}

impl Default for AssertionPrefixMatcherBuilder {
    /// An empty builder, as `AssertionPrefixMatcherBuilder::new`.
    fn default() -> (builder: Self)
        ensures
            builder.inner_spec().well_formed(),
            builder.inner_spec().patterns_spec().len() == 0,
            builder.inner_spec().prefilter_spec(),
            builder.inner_spec().literal_prefilter_spec(),
    {
        AssertionPrefixMatcherBuilder::new()
    }
}

/// The ordinary registration result carried by an experimental one.
pub open spec fn registration_result(added: Result<(), BuildError>) -> Result<(), Error> {
    match added {
        Ok(()) => Ok(()),
        Err(BuildError::Matcher(error)) => Err(error),
        Err(BuildError::Ineligible(_)) => Err(Error::NoPatterns),
    }
}

impl AssertionPrefixMatcherBuilder {
    /// The builder of the ordinary matcher that holds the registrations.
    pub closed spec fn inner_spec(&self) -> MatcherBuilder {
        self.inner
    }

    /// Creates an empty experimental matcher builder.
    pub fn new() -> (builder: Self)
        ensures
            builder.inner_spec().well_formed(),
            builder.inner_spec().patterns_spec().len() == 0,
            builder.inner_spec().prefilter_spec(),
            builder.inner_spec().literal_prefilter_spec(),
    {
        AssertionPrefixMatcherBuilder { inner: MatcherBuilder::new() }
    }

    /// Registers one caller-identified pattern, as `MatcherBuilder::add` does.
    pub fn add(&mut self, pattern_id: PatternId, pattern: &str) -> (added: Result<(), BuildError>)
        requires
            old(self).inner_spec().well_formed(),
        ensures
            final(self).inner_spec().well_formed(),
            added is Ok || added matches Err(BuildError::Matcher(_)),
            registration_outcome(
                old(self).inner_spec(),
                final(self).inner_spec(),
                pattern_id,
                utf16_of_chars(pattern@),
                false,
                registration_result(added),
            ),
    {
        self.add_with_flags(pattern_id, pattern, PatternFlags::none())
    }

    /// Registers one pattern with explicit compile-time matching options.
    pub fn add_with_flags(&mut self, pattern_id: PatternId, pattern: &str, flags: PatternFlags) -> (added:
        Result<(), BuildError>)
        requires
            old(self).inner_spec().well_formed(),
        ensures
            final(self).inner_spec().well_formed(),
            added is Ok || added matches Err(BuildError::Matcher(_)),
            registration_outcome(
                old(self).inner_spec(),
                final(self).inner_spec(),
                pattern_id,
                utf16_of_chars(pattern@),
                flags.is_case_insensitive_spec(),
                registration_result(added),
            ),
    {
        match self.inner.add_with_flags(pattern_id, pattern, flags) {
            Ok(()) => Ok(()),
            Err(error) => Err(BuildError::Matcher(error)),
        }
    }

    /// Compiles a statically eligible, immutable experimental matcher.
    pub fn build(self) -> (matcher: Result<AssertionPrefixMatcher, BuildError>)
        requires
            self.inner_spec().well_formed(),
        ensures
            self.inner_spec().patterns_spec().len() == 0 ==> matcher == Err::<AssertionPrefixMatcher, BuildError>(
                BuildError::Matcher(Error::NoPatterns),
            ),
            matcher matches Err(BuildError::Matcher(e)) ==> e == Error::NoPatterns || e == Error::PatternSetTooLarge,
            matcher matches Err(BuildError::Ineligible(reason)) ==> ineligibility_spec(self.inner_spec().patterns_spec())
                == Some(reason),
            ineligibility_spec(self.inner_spec().patterns_spec()) is Some ==> matcher is Err,
            self.inner_spec().patterns_spec().len() > 0 && ineligibility_spec(self.inner_spec().patterns_spec()) is None
                && crate::nfa::fits_identifiers(self.inner_spec().patterns_spec()) ==> matcher is Ok,
            matcher matches Ok(m) ==> {
                let bearing = cohort_patterns(self.inner_spec().patterns_spec(), true);
                &&& m.well_formed()
                &&& ineligibility_spec(self.inner_spec().patterns_spec()) is None
                &&& m.eligibility_spec()@.0 == bearing.len()
                &&& shared_prefix_spec(bearing) == Some(m.prefix_spec())
                &&& forall|i: int| 0 <= i < SHARED_PREFIX_UNITS ==> m.eligibility_spec()@.1[i] == m.prefix_spec()[i]
                &&& m.bearing_spec().patterns_spec() == bearing
                &&& (match m.free_spec() {
                    Some(p) => p.patterns_spec() == cohort_patterns(self.inner_spec().patterns_spec(), false),
                    None => cohort_patterns(self.inner_spec().patterns_spec(), false).len() == 0,
                })
                &&& m.prefilter_enabled_spec() == self.inner_spec().prefilter_spec()
                &&& m.literal_prefilter_enabled_spec() == self.inner_spec().literal_prefilter_spec()
            },
    {
        let (patterns, budget, prefilter_enabled, literal_prefilter_enabled) = self.inner.into_parts();
        if patterns.len() == 0 {
            return Err(BuildError::Matcher(Error::NoPatterns));
        }
        let ghost all = patterns@;
        let (free, bearing) = split_cohorts(patterns);
        proof {
            lemma_cohort_needs(all);
            assert forall|i: int| 0 <= i < free@.len() implies hir_well_formed(#[trigger] free@[i].expression_spec()) by {
                lemma_cohort_membership(all, false, i);
            }
            assert forall|i: int| 0 <= i < bearing@.len() implies hir_well_formed(#[trigger] bearing@[i].expression_spec()) by {
                lemma_cohort_membership(all, true, i);
            }
        }
        let free_partition = if free.len() > 0 {
            match MatcherPartition::compile(free.as_slice(), budget) {
                Ok(partition) => Some(partition),
                Err(error) => return Err(BuildError::Matcher(error)),
            }
        } else {
            None
        };
        let count = bearing.len();
        if count == 0 {
            return Err(BuildError::Ineligible(StaticIneligibility::NoAssertionBearingPatterns));
        }
        let bearing_partition = match MatcherPartition::compile(bearing.as_slice(), budget) {
            Ok(partition) => partition,
            Err(error) => return Err(BuildError::Matcher(error)),
        };
        if count < MIN_LITERAL_PATTERN_COUNT {
            return Err(
                BuildError::Ineligible(
                    StaticIneligibility::TooFewAssertionBearingPatterns {
                        found: count,
                        minimum: MIN_LITERAL_PATTERN_COUNT,
                    },
                ),
            );
        }
        let prefix = match shared_prefix(bearing.as_slice()) {
            Some(prefix) => prefix,
            None => return Err(BuildError::Ineligible(StaticIneligibility::NoSharedFiveUnitAsciiPrefix)),
        };
        let bytes: [u8; 5] = [
            prefix[0] as u8,
            prefix[1] as u8,
            prefix[2] as u8,
            prefix[3] as u8,
            prefix[4] as u8,
        ];
        let eligibility = StaticEligibility { assertion_pattern_count: count, shared_ascii_prefix: bytes };
        let matcher = AssertionPrefixMatcher {
            free: free_partition,
            bearing: bearing_partition,
            prefix,
            eligibility,
            prefilter_enabled,
            literal_prefilter_enabled,
        };
        proof {
            assert(ascii_units(prefix@));
            assert forall|i: int| 0 <= i < SHARED_PREFIX_UNITS implies matcher.eligibility_spec()@.1[i]
                == matcher.prefix_spec()[i] by {
                assert(prefix@[i] < 128);
            }
        }
        Ok(matcher)
    }
}

/// Immutable, reusable v1 assertion-prefix matcher.
pub struct AssertionPrefixMatcher {
    free: Option<MatcherPartition>,
    bearing: MatcherPartition,
    prefix: Vec<u16>,
    eligibility: StaticEligibility,
    prefilter_enabled: bool,
    literal_prefilter_enabled: bool,
}

/// What a scan of one cohort reports: nothing for an empty cohort, or the
/// partition's scan outcome.
pub open spec fn cohort_outcome(
    partition: Option<MatcherPartition>,
    input: Seq<u16>,
    prefilter_enabled: bool,
    literal_prefilter_enabled: bool,
    events: Seq<Match>,
) -> bool {
    match partition {
        None => events.len() == 0,
        Some(p) => partition_events(p, input, prefilter_enabled, literal_prefilter_enabled, events),
    }
}

/// `events` is what some scan of `partition` reports.
pub open spec fn partition_events(
    partition: MatcherPartition,
    input: Seq<u16>,
    prefilter_enabled: bool,
    literal_prefilter_enabled: bool,
    events: Seq<Match>,
) -> bool {
    exists|stats: ScanStats| #[trigger]
        partition_outcome(partition, input, prefilter_enabled, literal_prefilter_enabled, events, stats)
}

impl AssertionPrefixMatcher {
    /// Both cohorts were compiled from their patterns and the prefix is five
    /// ASCII units.
    pub closed spec fn well_formed(&self) -> bool {
        &&& (self.free matches Some(p) ==> p.well_formed())
        &&& self.bearing.well_formed()
        &&& self.prefix@.len() == SHARED_PREFIX_UNITS
        &&& ascii_units(self.prefix@)
    }

    /// The assertion-free cohort, when there is one.
    pub closed spec fn free_spec(&self) -> Option<MatcherPartition> {
        self.free
    }

    /// The assertion-bearing cohort.
    pub closed spec fn bearing_spec(&self) -> MatcherPartition {
        self.bearing
    }

    /// The shared prefix, as code units.
    pub closed spec fn prefix_spec(&self) -> Seq<u16> {
        self.prefix@
    }

    /// The construction-time proof.
    pub closed spec fn eligibility_spec(&self) -> StaticEligibility {
        self.eligibility
    }

    /// Whether start selection is enabled.
    pub closed spec fn prefilter_enabled_spec(&self) -> bool {
        self.prefilter_enabled
    }

    /// Whether literal start selection is enabled.
    pub closed spec fn literal_prefilter_enabled_spec(&self) -> bool {
        self.literal_prefilter_enabled
    }

    /// How `input` relates to the frozen activation rules.
    pub open spec fn decision_spec(&self, input: Seq<u16>) -> AssertionPrefixDecision {
        if !self.prefilter_enabled_spec() {
            AssertionPrefixDecision::Disabled
        } else if !self.literal_prefilter_enabled_spec() {
            AssertionPrefixDecision::LiteralDisabled
        } else if input.len() < MIN_LITERAL_INPUT_UNITS {
            AssertionPrefixDecision::InputSize
        } else if 2 * count_set(candidate_bits(input, DENSITY_SAMPLE_UNITS as int, self.prefix_spec()))
            >= DENSITY_SAMPLE_UNITS {
            AssertionPrefixDecision::DenseSample
        } else {
            AssertionPrefixDecision::Activated
        }
    }

    /// The candidate starts of a whole input.
    pub open spec fn candidates_spec(&self, input: Seq<u16>) -> Seq<bool> {
        candidate_bits(input, input.len() as int, self.prefix_spec())
    }

    /// The events of one scan: the assertion-free cohort's outcome, then the
    /// assertion-bearing cohort's events, which come from the candidate
    /// starts alone when the specialization activated.
    pub open spec fn events_outcome(&self, input: Seq<u16>, activated: bool, events: Seq<Match>) -> bool {
        exists|k: int|
            #![trigger events.take(k)]
            0 <= k <= events.len() && cohort_outcome(
                self.free_spec(),
                input,
                self.prefilter_enabled_spec(),
                self.literal_prefilter_enabled_spec(),
                events.take(k),
            ) && if activated {
                event_views(events.skip(k)) == scan_events(
                    self.bearing_spec().database_spec(),
                    input,
                    set_positions(self.candidates_spec(input)),
                )
            } else {
                partition_events(
                    self.bearing_spec(),
                    input,
                    self.prefilter_enabled_spec(),
                    self.literal_prefilter_enabled_spec(),
                    events.skip(k),
                )
            }
    }

    /// The specialization never drops a match of an assertion-bearing
    /// pattern: every match begins with the shared prefix, so its start is
    /// a candidate, and a scan of the candidates reports that pattern from
    /// the match's start to a position at or after its end.
    pub proof fn lemma_candidates_report_match(self, input: Seq<u16>, ordinal: int, start: int, end: int)
        requires
            self.well_formed(),
            shared_prefix_spec(self.bearing_spec().patterns_spec()) == Some(self.prefix_spec()),
            0 <= ordinal < self.bearing_spec().patterns_spec().len(),
            sequences_nonempty(self.bearing_spec().patterns_spec()[ordinal].expression_spec()),
            0 <= start < end <= input.len(),
            matches_spec(self.bearing_spec().patterns_spec()[ordinal].expression_spec(), input, start, start, end),
        ensures
            exists|e: int|
                end <= e <= input.len() && #[trigger] scan_events(
                    self.bearing_spec().database_spec(),
                    input,
                    set_positions(self.candidates_spec(input)),
                ).contains((self.bearing_spec().patterns_spec()[ordinal].pattern_id_spec()@, start as u64, e as u64)),
    {
        let bearing = self.bearing;
        let patterns = bearing.patterns_spec();
        let pattern = patterns[ordinal];
        let h = pattern.expression_spec();
        let prefix = self.prefix@;
        let db = bearing.database_spec();
        bearing.lemma_database_well_formed();
        bearing.lemma_partition_tables(ordinal);
        crate::necessary::lemma_summary_text(h, input, start, start, end);
        assert(shares_prefix(patterns, prefix));
        let units = summary_units(pattern);
        assert(units.len() >= SHARED_PREFIX_UNITS && units.take(SHARED_PREFIX_UNITS as int) == prefix);
        crate::necessary::lemma_text_prefix_shorter(prefix, units, input, start, end);
        let bits = self.candidates_spec(input);
        assert(prefix_at(input, start, prefix));
        assert(bits[start]);
        crate::prefilter::lemma_set_positions_contain(bits, start);
        let starts = set_positions(bits);
        let k = choose|k: int| 0 <= k < starts.len() && starts[k] == start;
        crate::language::lemma_match_reported(db, input, start, ordinal, h, end);
        let e = crate::semantics::longest_match(db, input, start, ordinal)->0;
        crate::semantics::lemma_longest_end_bounds(db, input, start, ordinal, (input.len() - start) as nat);
        crate::language::lemma_start_events_contain(db, input, start, db.pattern_table().len(), ordinal);
        let x = (pattern.pattern_id_spec()@, start as u64, e as u64);
        crate::language::lemma_scan_events_contain(db, input, starts, k, x);
        assert(scan_events(db, input, starts).contains(x));
    }

    /// Returns the construction-time semantic proof.
    pub fn static_eligibility(&self) -> (eligibility: StaticEligibility)
        ensures
            eligibility == self.eligibility_spec(),
    {
        self.eligibility
    }

    fn decide(&self, input: &[u16]) -> (decision: AssertionPrefixDecision)
        requires
            self.well_formed(),
        ensures
            decision == self.decision_spec(input@),
    {
        if !self.prefilter_enabled {
            return AssertionPrefixDecision::Disabled;
        }
        if !self.literal_prefilter_enabled {
            return AssertionPrefixDecision::LiteralDisabled;
        }
        if input.len() < MIN_LITERAL_INPUT_UNITS {
            return AssertionPrefixDecision::InputSize;
        }
        let sample = candidate_bitmap(input, DENSITY_SAMPLE_UNITS, self.prefix.as_slice());
        let sampled = sample.count();
        proof {
            crate::prefilter::lemma_count_set_bound(sample@);
        }
        if sampled >= DENSITY_SAMPLE_UNITS - sampled {
            AssertionPrefixDecision::DenseSample
        } else {
            AssertionPrefixDecision::Activated
        }
    }

    /// Scans one input under an explicit activation and fallback policy and
    /// returns the events with the report.
    pub fn collect_with_policy(&self, input: &Utf16Text, policy: ScanPolicy) -> (result: Result<
        (Vec<Match>, ScanReport),
        ScanError,
    >)
        requires
            self.well_formed(),
        ensures
            ({
                let decision = self.decision_spec(input@);
                let activated = decision == AssertionPrefixDecision::Activated;
                &&& policy == ScanPolicy::RequireSpecialized && !activated ==> result == Err::<
                    (Vec<Match>, ScanReport),
                    ScanError,
                >(ScanError::SpecializationUnavailable { reason: fallback_reason_spec(decision, input@.len() as usize) })
                &&& (policy == ScanPolicy::AllowExactFallback || activated) ==> result is Ok
                &&& result matches Ok((events, report)) ==> {
                    &&& self.events_outcome(input@, activated, events@)
                    &&& report@.0 == policy
                    &&& report@.1 == self.eligibility_spec()
                    &&& report@.2 == if activated {
                        ScanBackend::AssertionPrefixV1
                    } else {
                        ScanBackend::GenericExactFallback
                    }
                    &&& report@.3 == if activated {
                        None
                    } else {
                        Some(fallback_reason_spec(decision, input@.len() as usize))
                    }
                    &&& report@.4 == if activated {
                        count_set(self.candidates_spec(input@))
                    } else {
                        0
                    }
                    &&& activated ==> report@.5 > 0
                    &&& !activated ==> report@.5 == 0
                    &&& report@.5 == if activated {
                        crate::nfa::saturate(8 * ((input@.len() as int + 63) / 64))
                    } else {
                        0
                    }
                }
            }),
    {
        let units = input.as_units();
        let decision = self.decide(units);
        let activated = match decision {
            AssertionPrefixDecision::Activated => true,
            _ => false,
        };
        if !activated {
            if policy == ScanPolicy::RequireSpecialized {
                return Err(ScanError::SpecializationUnavailable { reason: fallback_reason(decision, units.len()) });
            }
        }
        let mut events: Vec<Match> = match &self.free {
            Some(partition) => {
                let (free_events, stats) = partition.scan(units, self.prefilter_enabled, self.literal_prefilter_enabled);
                proof {
                    assert(partition_outcome(*partition, input@, self.prefilter_enabled, self.literal_prefilter_enabled, free_events@, stats));
                }
                free_events
            },
            None => Vec::new(),
        };
        let ghost k = events@.len() as int;
        let ghost free_part = events@;
        proof {
            assert(cohort_outcome(self.free, input@, self.prefilter_enabled, self.literal_prefilter_enabled, free_part));
        }
        let (mut rest, candidate_count, candidate_bytes) = if activated {
            let candidates = candidate_bitmap(units, units.len(), self.prefix.as_slice());
            let positions = candidates.positions();
            proof {
                assert forall|j: int| 0 <= j < positions@.len() implies #[trigger] positions@[j] < input@.len() by {
                    assert(positions@.map_values(|q: usize| q as int)[j] == positions@[j] as int);
                    lemma_positions_in_range(candidates@, j);
                }
            }
            proof {
                self.bearing.lemma_database_well_formed();
            }
            let found = collect_at_starts(self.bearing.database(), units, positions.as_slice());
            proof {
                assert(positions@.map_values(|q: usize| q as int) == set_positions(self.candidates_spec(input@)));
            }
            let bytes = candidates.retained_bytes();
            proof {
                candidates.lemma_word_count();
            }
            (found, candidates.count(), bytes)
        } else {
            let (bearing_events, stats) = self.bearing.scan(units, self.prefilter_enabled, self.literal_prefilter_enabled);
            proof {
                assert(partition_outcome(self.bearing, input@, self.prefilter_enabled, self.literal_prefilter_enabled, bearing_events@, stats));
                assert(partition_events(self.bearing, input@, self.prefilter_enabled, self.literal_prefilter_enabled, bearing_events@));
            }
            (bearing_events, 0, 0)
        };
        let ghost rest_part = rest@;
        events.append(&mut rest);
        proof {
            assert(events@.take(k) =~= free_part);
            assert(events@.skip(k) =~= rest_part);
            if activated {
                assert(event_views(rest_part) == scan_events(self.bearing.database_spec(), input@, set_positions(self.candidates_spec(input@))));
            } else {
                assert(partition_events(self.bearing, input@, self.prefilter_enabled, self.literal_prefilter_enabled, rest_part));
            }
        }
        let fallback = if activated {
            None
        } else {
            Some(fallback_reason(decision, units.len()))
        };
        let report = ScanReport {
            policy,
            eligibility: self.eligibility,
            backend: if activated {
                ScanBackend::AssertionPrefixV1
            } else {
                ScanBackend::GenericExactFallback
            },
            fallback_reason: fallback,
            candidate_count,
            candidate_bytes,
        };
        Ok((events, report))
    }

    /// Scans one input under an explicit activation and fallback policy and
    /// hands the events of `collect_with_policy` to `sink`. A refusal
    /// delivers nothing.
    pub fn scan_with_policy<F: FnMut(Match)>(&self, input: &Utf16Text, policy: ScanPolicy, sink: F) -> (result:
        Result<ScanReport, ScanError>)
        requires
            self.well_formed(),
            forall|m: Match| call_requires(sink, (m,)),
        ensures
            ({
                let decision = self.decision_spec(input@);
                let activated = decision == AssertionPrefixDecision::Activated;
                &&& policy == ScanPolicy::RequireSpecialized && !activated ==> result == Err::<ScanReport, ScanError>(
                    ScanError::SpecializationUnavailable { reason: fallback_reason_spec(decision, input@.len() as usize) },
                )
                &&& (policy == ScanPolicy::AllowExactFallback || activated) ==> result is Ok
                &&& result matches Ok(report) ==> {
                    &&& report@.0 == policy
                    &&& report@.1 == self.eligibility_spec()
                    &&& report@.2 == if activated {
                        ScanBackend::AssertionPrefixV1
                    } else {
                        ScanBackend::GenericExactFallback
                    }
                    &&& report@.3 == if activated {
                        None
                    } else {
                        Some(fallback_reason_spec(decision, input@.len() as usize))
                    }
                    &&& report@.4 == if activated {
                        count_set(self.candidates_spec(input@))
                    } else {
                        0
                    }
                    &&& report@.5 == if activated {
                        crate::nfa::saturate(8 * ((input@.len() as int + 63) / 64))
                    } else {
                        0
                    }
                }
            }),
    {
        match self.collect_with_policy(input, policy) {
            Ok((events, report)) => {
                deliver(events, sink);
                Ok(report)
            },
            Err(error) => Err(error),
        }
    }
}

proof fn lemma_positions_in_range(bits: Seq<bool>, k: int)
    requires
        0 <= k < set_positions(bits).len(),
    ensures
        0 <= set_positions(bits)[k] < bits.len(),
    decreases bits.len(),
{
    if bits.len() > 0 {
        if bits.last() && k == set_positions(bits).len() - 1 {
        } else {
            lemma_positions_in_range(bits.drop_last(), k);
        }
    }
}

} // verus!
