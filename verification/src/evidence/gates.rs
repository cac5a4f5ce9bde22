//! Comparison gates over pairs of receipts.
//!
//! Each gate checks both receipts' metadata, then that they measured the
//! same fixture, then its own thresholds, and reports the first check that
//! fails. Rendering a failure as text is left to the caller.
use vstd::prelude::*;

use crate::evidence::receipts::{
    copy_diagnostics, copy_optional_diagnostics, copy_optional_text, text_is,
    CacheDiagnosticsReceipt, I6ScanReceipt, I7ScanReceipt, ScaleScanReceipt, TripwireReceipt,
    I7_MEASURED_ITERATIONS, I7_WARMUP_ITERATIONS,
};

verus! {

/// Relative slowdown, in percent, above which the literal tripwire may fire.
pub const TRIPWIRE_RELATIVE_LIMIT_PERCENT: u128 = 50;
/// Absolute slowdown at or above which the literal tripwire may fire.
pub const TRIPWIRE_ABSOLUTE_LIMIT_NS: u128 = 100_000_000;
/// Relative slowdown, in percent, above which the scale tripwire may fire.
pub const WUTHERING_TRIPWIRE_RELATIVE_LIMIT_PERCENT: u128 = 100;
/// Absolute slowdown at or above which the scale tripwire may fire.
pub const WUTHERING_TRIPWIRE_ABSOLUTE_LIMIT_NS: u128 = 50_000_000;
/// Improvement an I6 positive gate requires.
pub const I6_REQUIRED_IMPROVEMENT_BASIS_POINTS: u128 = 500;
/// Slowdown an I6 non-regression gate tolerates.
pub const I6_MAXIMUM_REGRESSION_BASIS_POINTS: u128 = 300;
/// Compile slowdown every I6 gate tolerates.
pub const I6_MAXIMUM_COMPILE_REGRESSION_BASIS_POINTS: u128 = 300;
/// Relative improvement an I7 positive gate requires.
pub const I7_REQUIRED_IMPROVEMENT_BASIS_POINTS: u128 = 1_000;
/// Absolute improvement an I7 positive gate requires.
pub const I7_REQUIRED_IMPROVEMENT_NS: u128 = 2_000_000;
/// Relative slowdown an I7 guard tolerates.
pub const I7_MAXIMUM_REGRESSION_BASIS_POINTS: u128 = 300;
/// Absolute slowdown an I7 guard tolerates.
pub const I7_MAXIMUM_REGRESSION_NS: u128 = 1_000_000;
/// Compile slowdown every I7 gate tolerates.
pub const I7_MAXIMUM_COMPILE_REGRESSION_NS: u128 = 25_000_000;
/// Largest retained prefilter an I7 candidate may hold.
pub const I7_MAXIMUM_PREFILTER_BYTES: usize = 8_388_608;
/// Candidate storage allowed on top of one bit per input unit.
pub const I7_CANDIDATE_FIXED_ALLOWANCE_BYTES: usize = 65_536;

/// The campaign a comparison belongs to.
#[derive(Clone, Copy, Debug, PartialEq, Eq, Structural)]
pub enum Evidence {
    /// The coarse literal tripwire.
    Tripwire,
    /// The large-corpus tripwire.
    WutheringTripwire,
    /// The state-cache admission campaign.
    StateCache,
    /// The safe-prefilter admission campaign.
    SafePrefilter,
    /// The large-corpus safe-prefilter admission.
    WutheringPrefilter,
}

/// Which receipt of a pair a failure concerns.
#[derive(Clone, Copy, Debug, PartialEq, Eq, Structural)]
pub enum Role {
    Baseline,
    Candidate,
}

/// The first check a comparison failed.
#[derive(Clone, Copy, Debug, PartialEq, Eq, Structural)]
pub enum GateError {
    /// A receipt's metadata is not that of the campaign.
    InvalidMetadata { evidence: Evidence, role: Role },
    /// The receipts measured different fixtures.
    FixtureIdentitiesDiffer { evidence: Evidence },
    /// The receipts were measured on different runners.
    DifferentRunner { evidence: Evidence },
    /// The receipts must share one revision and one runner.
    DifferentRevisionOrRunner { evidence: Evidence },
    /// The comparison requires the one-worker path.
    WorkerCount { evidence: Evidence },
    /// The severe-regression tripwire fired.
    TripwireFired {
        evidence: Evidence,
        baseline_ns: u128,
        candidate_ns: u128,
        regression_ns: u128,
        slowdown_basis_points: u128,
    },
    /// Compilation slowed down beyond the guard, in basis points for the
    /// state-cache campaign and in nanoseconds otherwise.
    CompileRegression { evidence: Evidence, baseline_ns: u128, candidate_ns: u128, amount: u128 },
    /// The required improvement was not measured.
    PositiveGateFailed {
        evidence: Evidence,
        baseline_ns: u128,
        candidate_ns: u128,
        improvement_ns: u128,
        improvement_basis_points: u128,
    },
    /// Slowdown past the limit.
    RegressionGateFailed {
        evidence: Evidence,
        baseline_ns: u128,
        candidate_ns: u128,
        regression_ns: u128,
        slowdown_basis_points: u128,
    },
    /// The receipts name a gate the campaign does not define.
    UnknownGate { evidence: Evidence },
    /// The pair is not prefilter off followed by prefilter on.
    PrefilterModes,
    /// The baseline did not scan every start with the prefilter disabled.
    BaselineNotAllStarts { evidence: Evidence },
    /// The candidate did not use the literal prefilter.
    CandidateNotLiteral,
    /// The candidate's recorded path is not the one its scenario expects.
    UnexpectedPath,
    /// The retained prefilter exceeds its bound.
    PrefilterTooLarge { evidence: Evidence, bytes: usize },
    /// The candidate bitmap exceeds its bound.
    CandidateStorageTooLarge { evidence: Evidence, bytes: usize, limit: usize },
    /// A path other than the literal one kept a candidate bitmap.
    NonLiteralCandidateBitmap,
    /// A receipt lacks the diagnostics the comparison reads.
    MissingDiagnostics { role: Role },
    /// Fewer warmups or measurements than the protocol requires.
    MeasurementProtocol,
    /// The pattern count is outside the frozen campaign.
    PatternCountOutsideCampaign,
}

/// `a - b`, or zero when `b` is larger.
pub open spec fn sat_sub(a: int, b: int) -> int {
    if a >= b {
        a - b
    } else {
        0
    }
}

/// `a * 10_000`, saturated at the top of `u128`.
pub open spec fn scaled_spec(a: int) -> int {
    if a * 10_000 > u128::MAX {
        u128::MAX as int
    } else {
        a * 10_000
    }
}

/// `numerator / denominator`, or the top of `u128` for a zero denominator.
pub open spec fn ratio_spec(numerator: int, denominator: int) -> u128 {
    if denominator == 0 {
        u128::MAX
    } else {
        (numerator / denominator) as u128
    }
}

/// Improvement of `candidate` over `baseline`, in basis points of the baseline.
pub open spec fn decrease_spec(baseline: u128, candidate: u128) -> u128 {
    ratio_spec(scaled_spec(sat_sub(baseline as int, candidate as int)), baseline as int)
}

/// Slowdown of `candidate` against `baseline`, in basis points of the baseline.
pub open spec fn increase_spec(baseline: u128, candidate: u128) -> u128 {
    ratio_spec(scaled_spec(sat_sub(candidate as int, baseline as int)), baseline as int)
}

/// The tripwires' slowdown: the candidate as basis points of the baseline,
/// less one whole.
pub open spec fn tripwire_slowdown_spec(baseline: u128, candidate: u128) -> u128 {
    sat_sub(ratio_spec(scaled_spec(candidate as int), baseline as int) as int, 10_000) as u128
}

fn scaled(value: u128) -> (result: u128)
    ensures
        result == scaled_spec(value as int),
{
    if value > u128::MAX / 10_000 {
        assert(value * 10_000 > u128::MAX) by (nonlinear_arith)
            requires
                value > u128::MAX / 10_000,
        ;
        u128::MAX
    } else {
        assert(value * 10_000 <= u128::MAX) by (nonlinear_arith)
            requires
                value <= u128::MAX / 10_000,
        ;
        value * 10_000
    }
}

fn ratio(numerator: u128, denominator: u128) -> (result: u128)
    ensures
        result == ratio_spec(numerator as int, denominator as int),
{
    if denominator == 0 {
        u128::MAX
    } else {
        numerator / denominator
    }
}

fn saturating_difference(a: u128, b: u128) -> (result: u128)
    ensures
        result == sat_sub(a as int, b as int),
{
    if a >= b {
        a - b
    } else {
        0
    }
}

/// Improvement of `candidate` over `baseline`, in basis points of the
/// baseline; the top of `u128` for a zero baseline.
pub fn relative_decrease_basis_points(baseline: u128, candidate: u128) -> (result: u128)
    ensures
        result == decrease_spec(baseline, candidate),
{
    ratio(scaled(saturating_difference(baseline, candidate)), baseline)
}

/// Slowdown of `candidate` against `baseline`, in basis points of the
/// baseline; the top of `u128` for a zero baseline.
pub fn relative_increase_basis_points(baseline: u128, candidate: u128) -> (result: u128)
    ensures
        result == increase_spec(baseline, candidate),
{
    ratio(scaled(saturating_difference(candidate, baseline)), baseline)
}

fn tripwire_slowdown(baseline: u128, candidate: u128) -> (result: u128)
    ensures
        result == tripwire_slowdown_spec(baseline, candidate),
{
    saturating_difference(ratio(scaled(candidate), baseline), 10_000)
}

/// Whether a tripwire with these limits fires.
pub open spec fn tripwire_fires(
    baseline: u128,
    candidate: u128,
    relative_limit_percent: u128,
    absolute_limit_ns: u128,
) -> bool {
    &&& tripwire_slowdown_spec(baseline, candidate) > relative_limit_percent * 100
    &&& sat_sub(candidate as int, baseline as int) >= absolute_limit_ns
}

/// A passed tripwire comparison.
#[derive(Clone, Debug, PartialEq, Eq)]
pub struct ComparisonReceipt {
    pub schema_version: u32,
    pub evidence_id: &'static str,
    pub comparison: &'static str,
    pub claim: &'static str,
    pub baseline_revision: String,
    pub candidate_revision: String,
    pub runner: String,
    pub baseline_median_scan_ns: u128,
    pub candidate_median_scan_ns: u128,
    pub regression_ns: u128,
    pub slowdown_basis_points: u128,
    pub relative_limit_percent: u128,
    pub absolute_limit_ns: u128,
    pub status: &'static str,
}

/// The first failed check of the literal tripwire, if any.
pub open spec fn tripwire_failure(baseline: TripwireReceipt, candidate: TripwireReceipt) -> Option<GateError> {
    if !baseline.valid_spec() {
        Some(GateError::InvalidMetadata { evidence: Evidence::Tripwire, role: Role::Baseline })
    } else if !candidate.valid_spec() {
        Some(GateError::InvalidMetadata { evidence: Evidence::Tripwire, role: Role::Candidate })
    } else if !baseline.same_fixture_spec(&candidate) {
        Some(GateError::FixtureIdentitiesDiffer { evidence: Evidence::Tripwire })
    } else if baseline.runner@ != candidate.runner@ {
        Some(GateError::DifferentRunner { evidence: Evidence::Tripwire })
    } else if tripwire_fires(
        baseline.median_scan_ns,
        candidate.median_scan_ns,
        TRIPWIRE_RELATIVE_LIMIT_PERCENT,
        TRIPWIRE_ABSOLUTE_LIMIT_NS,
    ) {
        Some(
            GateError::TripwireFired {
                evidence: Evidence::Tripwire,
                baseline_ns: baseline.median_scan_ns,
                candidate_ns: candidate.median_scan_ns,
                regression_ns: sat_sub(candidate.median_scan_ns as int, baseline.median_scan_ns as int) as u128,
                slowdown_basis_points: tripwire_slowdown_spec(baseline.median_scan_ns, candidate.median_scan_ns),
            },
        )
    } else {
        None
    }
}

/// Compares two literal tripwire receipts. The comparison passes unless
/// the candidate is both relatively and absolutely much slower.
pub fn compare_tripwire(baseline: &TripwireReceipt, candidate: &TripwireReceipt) -> (result: Result<
    ComparisonReceipt,
    GateError,
>)
    ensures
        match tripwire_failure(*baseline, *candidate) {
            Some(error) => result == Err::<ComparisonReceipt, GateError>(error),
            None => result matches Ok(receipt) && receipt.status == "pass"
                && receipt.evidence_id == "C1"
                && receipt.baseline_revision@ == baseline.revision@
                && receipt.candidate_revision@ == candidate.revision@
                && receipt.runner@ == baseline.runner@
                && receipt.baseline_median_scan_ns == baseline.median_scan_ns
                && receipt.candidate_median_scan_ns == candidate.median_scan_ns
                && receipt.regression_ns == sat_sub(candidate.median_scan_ns as int, baseline.median_scan_ns as int)
                && receipt.slowdown_basis_points == tripwire_slowdown_spec(baseline.median_scan_ns, candidate.median_scan_ns)
                && receipt.relative_limit_percent == TRIPWIRE_RELATIVE_LIMIT_PERCENT
                && receipt.absolute_limit_ns == TRIPWIRE_ABSOLUTE_LIMIT_NS,
        },
{
    if !baseline.validate() {
        return Err(GateError::InvalidMetadata { evidence: Evidence::Tripwire, role: Role::Baseline });
    }
    if !candidate.validate() {
        return Err(GateError::InvalidMetadata { evidence: Evidence::Tripwire, role: Role::Candidate });
    }
    if !baseline.same_fixture(candidate) {
        return Err(GateError::FixtureIdentitiesDiffer { evidence: Evidence::Tripwire });
    }
    if baseline.runner != candidate.runner {
        return Err(GateError::DifferentRunner { evidence: Evidence::Tripwire });
    }
    let regression_ns = saturating_difference(candidate.median_scan_ns, baseline.median_scan_ns);
    let slowdown_basis_points = tripwire_slowdown(baseline.median_scan_ns, candidate.median_scan_ns);
    if slowdown_basis_points > TRIPWIRE_RELATIVE_LIMIT_PERCENT * 100 && regression_ns
        >= TRIPWIRE_ABSOLUTE_LIMIT_NS {
        return Err(
            GateError::TripwireFired {
                evidence: Evidence::Tripwire,
                baseline_ns: baseline.median_scan_ns,
                candidate_ns: candidate.median_scan_ns,
                regression_ns,
                slowdown_basis_points,
            },
        );
    }
    Ok(
        ComparisonReceipt {
            schema_version: 1,
            evidence_id: "C1",
            comparison: "ascii-literal-tripwire-v1",
            claim: "coarse-severe-regression-signal-only",
            baseline_revision: baseline.revision.clone(),
            candidate_revision: candidate.revision.clone(),
            runner: baseline.runner.clone(),
            baseline_median_scan_ns: baseline.median_scan_ns,
            candidate_median_scan_ns: candidate.median_scan_ns,
            regression_ns,
            slowdown_basis_points,
            relative_limit_percent: TRIPWIRE_RELATIVE_LIMIT_PERCENT,
            absolute_limit_ns: TRIPWIRE_ABSOLUTE_LIMIT_NS,
            status: "pass",
        },
    )
}

/// A passed scale tripwire comparison.
#[derive(Clone, Debug, PartialEq, Eq)]
pub struct ScaleComparisonReceipt {
    pub schema_version: u32,
    pub evidence_id: &'static str,
    pub comparison: &'static str,
    pub claim: &'static str,
    pub baseline_revision: String,
    pub candidate_revision: String,
    pub baseline_measured_at_utc: Option<String>,
    pub candidate_measured_at_utc: Option<String>,
    pub runner: String,
    pub pattern_count: usize,
    pub corpus_bytes: usize,
    pub event_count: usize,
    pub event_digest: String,
    pub baseline_median_scan_ns: u128,
    pub candidate_median_scan_ns: u128,
    pub regression_ns: u128,
    pub slowdown_basis_points: u128,
    pub relative_limit_percent: u128,
    pub absolute_limit_ns: u128,
    pub status: &'static str,
}

/// The first failed check of the scale tripwire, if any.
pub open spec fn wuthering_tripwire_failure(baseline: ScaleScanReceipt, candidate: ScaleScanReceipt) -> Option<
    GateError,
> {
    if !baseline.valid_spec() {
        Some(GateError::InvalidMetadata { evidence: Evidence::WutheringTripwire, role: Role::Baseline })
    } else if !candidate.valid_spec() {
        Some(GateError::InvalidMetadata { evidence: Evidence::WutheringTripwire, role: Role::Candidate })
    } else if !baseline.same_fixture_spec(&candidate) {
        Some(GateError::FixtureIdentitiesDiffer { evidence: Evidence::WutheringTripwire })
    } else if baseline.runner@ != candidate.runner@ {
        Some(GateError::DifferentRunner { evidence: Evidence::WutheringTripwire })
    } else if baseline.worker_count != 1 || candidate.worker_count != 1 {
        Some(GateError::WorkerCount { evidence: Evidence::WutheringTripwire })
    } else if tripwire_fires(
        baseline.median_scan_ns,
        candidate.median_scan_ns,
        WUTHERING_TRIPWIRE_RELATIVE_LIMIT_PERCENT,
        WUTHERING_TRIPWIRE_ABSOLUTE_LIMIT_NS,
    ) {
        Some(
            GateError::TripwireFired {
                evidence: Evidence::WutheringTripwire,
                baseline_ns: baseline.median_scan_ns,
                candidate_ns: candidate.median_scan_ns,
                regression_ns: sat_sub(candidate.median_scan_ns as int, baseline.median_scan_ns as int) as u128,
                slowdown_basis_points: tripwire_slowdown_spec(baseline.median_scan_ns, candidate.median_scan_ns),
            },
        )
    } else {
        None
    }
}

/// Compares two one-worker scale receipts. The comparison passes unless
/// the candidate is both relatively and absolutely much slower.
pub fn compare_wuthering_tripwire(baseline: &ScaleScanReceipt, candidate: &ScaleScanReceipt) -> (result:
    Result<ScaleComparisonReceipt, GateError>)
    ensures
        match wuthering_tripwire_failure(*baseline, *candidate) {
            Some(error) => result == Err::<ScaleComparisonReceipt, GateError>(error),
            None => result matches Ok(receipt) && receipt.status == "pass"
                && receipt.evidence_id == "C2"
                && receipt.baseline_revision@ == baseline.revision@
                && receipt.candidate_revision@ == candidate.revision@
                && receipt.baseline_measured_at_utc == baseline.measured_at_utc
                && receipt.candidate_measured_at_utc == candidate.measured_at_utc
                && receipt.runner@ == baseline.runner@
                && receipt.pattern_count == baseline.pattern_count
                && receipt.corpus_bytes == baseline.corpus_bytes
                && receipt.event_count == baseline.event_count
                && receipt.event_digest@ == baseline.event_digest@
                && receipt.baseline_median_scan_ns == baseline.median_scan_ns
                && receipt.candidate_median_scan_ns == candidate.median_scan_ns
                && receipt.regression_ns == sat_sub(candidate.median_scan_ns as int, baseline.median_scan_ns as int)
                && receipt.slowdown_basis_points == tripwire_slowdown_spec(baseline.median_scan_ns, candidate.median_scan_ns)
                && receipt.relative_limit_percent == WUTHERING_TRIPWIRE_RELATIVE_LIMIT_PERCENT
                && receipt.absolute_limit_ns == WUTHERING_TRIPWIRE_ABSOLUTE_LIMIT_NS,
        },
{
    if !baseline.validate() {
        return Err(GateError::InvalidMetadata { evidence: Evidence::WutheringTripwire, role: Role::Baseline });
    }
    if !candidate.validate() {
        return Err(GateError::InvalidMetadata { evidence: Evidence::WutheringTripwire, role: Role::Candidate });
    }
    if !baseline.same_fixture(candidate) {
        return Err(GateError::FixtureIdentitiesDiffer { evidence: Evidence::WutheringTripwire });
    }
    if baseline.runner != candidate.runner {
        return Err(GateError::DifferentRunner { evidence: Evidence::WutheringTripwire });
    }
    if baseline.worker_count != 1 || candidate.worker_count != 1 {
        return Err(GateError::WorkerCount { evidence: Evidence::WutheringTripwire });
    }
    let regression_ns = saturating_difference(candidate.median_scan_ns, baseline.median_scan_ns);
    let slowdown_basis_points = tripwire_slowdown(baseline.median_scan_ns, candidate.median_scan_ns);
    if slowdown_basis_points > WUTHERING_TRIPWIRE_RELATIVE_LIMIT_PERCENT * 100 && regression_ns
        >= WUTHERING_TRIPWIRE_ABSOLUTE_LIMIT_NS {
        return Err(
            GateError::TripwireFired {
                evidence: Evidence::WutheringTripwire,
                baseline_ns: baseline.median_scan_ns,
                candidate_ns: candidate.median_scan_ns,
                regression_ns,
                slowdown_basis_points,
            },
        );
    }
    Ok(
        ScaleComparisonReceipt {
            schema_version: 1,
            evidence_id: "C2",
            comparison: "wuthering-tripwire-v1",
            claim: "coarse-severe-regression-signal-only",
            baseline_revision: baseline.revision.clone(),
            candidate_revision: candidate.revision.clone(),
            baseline_measured_at_utc: copy_optional_text(&baseline.measured_at_utc),
            candidate_measured_at_utc: copy_optional_text(&candidate.measured_at_utc),
            runner: baseline.runner.clone(),
            pattern_count: baseline.pattern_count,
            corpus_bytes: baseline.corpus_bytes,
            event_count: baseline.event_count,
            event_digest: baseline.event_digest.clone(),
            baseline_median_scan_ns: baseline.median_scan_ns,
            candidate_median_scan_ns: candidate.median_scan_ns,
            regression_ns,
            slowdown_basis_points,
            relative_limit_percent: WUTHERING_TRIPWIRE_RELATIVE_LIMIT_PERCENT,
            absolute_limit_ns: WUTHERING_TRIPWIRE_ABSOLUTE_LIMIT_NS,
            status: "pass",
        },
    )
}

/// A passed state-cache comparison.
#[derive(Clone, Debug, PartialEq, Eq)]
pub struct I6ComparisonReceipt {
    pub schema_version: u32,
    pub evidence_id: &'static str,
    pub comparison: &'static str,
    pub scenario: String,
    pub gate: String,
    pub baseline_revision: String,
    pub candidate_revision: String,
    pub runner: String,
    pub baseline_median_compile_ns: u128,
    pub candidate_median_compile_ns: u128,
    pub baseline_median_scan_ns: u128,
    pub candidate_median_scan_ns: u128,
    pub improvement_basis_points: u128,
    pub slowdown_basis_points: u128,
    pub compile_slowdown_basis_points: u128,
    pub baseline_cache_diagnostics: Option<CacheDiagnosticsReceipt>,
    pub candidate_cache_diagnostics: Option<CacheDiagnosticsReceipt>,
    pub status: &'static str,
}

/// The first failed check of a state-cache comparison, if any.
pub open spec fn i6_failure(baseline: I6ScanReceipt, candidate: I6ScanReceipt) -> Option<GateError> {
    let improvement = decrease_spec(baseline.median_scan_ns, candidate.median_scan_ns);
    let slowdown = increase_spec(baseline.median_scan_ns, candidate.median_scan_ns);
    let compile_slowdown = increase_spec(baseline.median_compile_ns, candidate.median_compile_ns);
    if !baseline.valid_spec() {
        Some(GateError::InvalidMetadata { evidence: Evidence::StateCache, role: Role::Baseline })
    } else if !candidate.valid_spec() {
        Some(GateError::InvalidMetadata { evidence: Evidence::StateCache, role: Role::Candidate })
    } else if !baseline.same_fixture_spec(&candidate) {
        Some(GateError::FixtureIdentitiesDiffer { evidence: Evidence::StateCache })
    } else if baseline.runner@ != candidate.runner@ {
        Some(GateError::DifferentRunner { evidence: Evidence::StateCache })
    } else if compile_slowdown > I6_MAXIMUM_COMPILE_REGRESSION_BASIS_POINTS {
        Some(
            GateError::CompileRegression {
                evidence: Evidence::StateCache,
                baseline_ns: baseline.median_compile_ns,
                candidate_ns: candidate.median_compile_ns,
                amount: compile_slowdown,
            },
        )
    } else if baseline.gate@ == "improvement-5-percent"@ {
        if improvement < I6_REQUIRED_IMPROVEMENT_BASIS_POINTS {
            Some(
                GateError::PositiveGateFailed {
                    evidence: Evidence::StateCache,
                    baseline_ns: baseline.median_scan_ns,
                    candidate_ns: candidate.median_scan_ns,
                    improvement_ns: sat_sub(baseline.median_scan_ns as int, candidate.median_scan_ns as int) as u128,
                    improvement_basis_points: improvement,
                },
            )
        } else {
            None
        }
    } else if baseline.gate@ == "non-regression-3-percent"@ {
        if slowdown > I6_MAXIMUM_REGRESSION_BASIS_POINTS {
            Some(
                GateError::RegressionGateFailed {
                    evidence: Evidence::StateCache,
                    baseline_ns: baseline.median_scan_ns,
                    candidate_ns: candidate.median_scan_ns,
                    regression_ns: sat_sub(candidate.median_scan_ns as int, baseline.median_scan_ns as int) as u128,
                    slowdown_basis_points: slowdown,
                },
            )
        } else {
            None
        }
    } else {
        Some(GateError::UnknownGate { evidence: Evidence::StateCache })
    }
}

/// Compares two state-cache receipts under the baseline's gate: a positive
/// gate requires a five percent improvement, a non-regression gate
/// tolerates three percent of slowdown, and both bound compile slowdown.
pub fn compare_i6(baseline: &I6ScanReceipt, candidate: &I6ScanReceipt) -> (result: Result<
    I6ComparisonReceipt,
    GateError,
>)
    ensures
        match i6_failure(*baseline, *candidate) {
            Some(error) => result == Err::<I6ComparisonReceipt, GateError>(error),
            None => result matches Ok(receipt) && receipt.status == "pass"
                && receipt.evidence_id == "I6-P1"
                && receipt.scenario@ == baseline.scenario@
                && receipt.gate@ == baseline.gate@
                && receipt.baseline_revision@ == baseline.revision@
                && receipt.candidate_revision@ == candidate.revision@
                && receipt.runner@ == baseline.runner@
                && receipt.baseline_median_compile_ns == baseline.median_compile_ns
                && receipt.candidate_median_compile_ns == candidate.median_compile_ns
                && receipt.baseline_median_scan_ns == baseline.median_scan_ns
                && receipt.candidate_median_scan_ns == candidate.median_scan_ns
                && receipt.improvement_basis_points == decrease_spec(baseline.median_scan_ns, candidate.median_scan_ns)
                && receipt.slowdown_basis_points == increase_spec(baseline.median_scan_ns, candidate.median_scan_ns)
                && receipt.compile_slowdown_basis_points == increase_spec(baseline.median_compile_ns, candidate.median_compile_ns)
                && receipt.baseline_cache_diagnostics == baseline.cache_diagnostics
                && receipt.candidate_cache_diagnostics == candidate.cache_diagnostics,
        },
{
    if !baseline.validate() {
        return Err(GateError::InvalidMetadata { evidence: Evidence::StateCache, role: Role::Baseline });
    }
    if !candidate.validate() {
        return Err(GateError::InvalidMetadata { evidence: Evidence::StateCache, role: Role::Candidate });
    }
    if !baseline.same_fixture(candidate) {
        return Err(GateError::FixtureIdentitiesDiffer { evidence: Evidence::StateCache });
    }
    if baseline.runner != candidate.runner {
        return Err(GateError::DifferentRunner { evidence: Evidence::StateCache });
    }
    let improvement_basis_points = relative_decrease_basis_points(baseline.median_scan_ns, candidate.median_scan_ns);
    let slowdown_basis_points = relative_increase_basis_points(baseline.median_scan_ns, candidate.median_scan_ns);
    let compile_slowdown_basis_points = relative_increase_basis_points(
        baseline.median_compile_ns,
        candidate.median_compile_ns,
    );
    if compile_slowdown_basis_points > I6_MAXIMUM_COMPILE_REGRESSION_BASIS_POINTS {
        return Err(
            GateError::CompileRegression {
                evidence: Evidence::StateCache,
                baseline_ns: baseline.median_compile_ns,
                candidate_ns: candidate.median_compile_ns,
                amount: compile_slowdown_basis_points,
            },
        );
    }
    if text_is(&baseline.gate, "improvement-5-percent") {
        if improvement_basis_points < I6_REQUIRED_IMPROVEMENT_BASIS_POINTS {
            return Err(
                GateError::PositiveGateFailed {
                    evidence: Evidence::StateCache,
                    baseline_ns: baseline.median_scan_ns,
                    candidate_ns: candidate.median_scan_ns,
                    improvement_ns: saturating_difference(baseline.median_scan_ns, candidate.median_scan_ns),
                    improvement_basis_points,
                },
            );
        }
    } else if text_is(&baseline.gate, "non-regression-3-percent") {
        if slowdown_basis_points > I6_MAXIMUM_REGRESSION_BASIS_POINTS {
            return Err(
                GateError::RegressionGateFailed {
                    evidence: Evidence::StateCache,
                    baseline_ns: baseline.median_scan_ns,
                    candidate_ns: candidate.median_scan_ns,
                    regression_ns: saturating_difference(candidate.median_scan_ns, baseline.median_scan_ns),
                    slowdown_basis_points,
                },
            );
        }
    } else {
        return Err(GateError::UnknownGate { evidence: Evidence::StateCache });
    }
    Ok(
        I6ComparisonReceipt {
            schema_version: 1,
            evidence_id: "I6-P1",
            comparison: "state-cache-campaign-v1",
            scenario: baseline.scenario.clone(),
            gate: baseline.gate.clone(),
            baseline_revision: baseline.revision.clone(),
            candidate_revision: candidate.revision.clone(),
            runner: baseline.runner.clone(),
            baseline_median_compile_ns: baseline.median_compile_ns,
            candidate_median_compile_ns: candidate.median_compile_ns,
            baseline_median_scan_ns: baseline.median_scan_ns,
            candidate_median_scan_ns: candidate.median_scan_ns,
            improvement_basis_points,
            slowdown_basis_points,
            compile_slowdown_basis_points,
            baseline_cache_diagnostics: copy_optional_diagnostics(&baseline.cache_diagnostics),
            candidate_cache_diagnostics: copy_optional_diagnostics(&candidate.cache_diagnostics),
            status: "pass",
        },
    )
}

/// One bit per input unit, rounded up to bytes, plus the fixed allowance,
/// saturated at the top of `usize`.
pub open spec fn candidate_limit_spec(input_units: usize) -> usize {
    let bits = (input_units as int + 7) / 8;
    if bits + I7_CANDIDATE_FIXED_ALLOWANCE_BYTES > usize::MAX {
        usize::MAX
    } else {
        (bits + I7_CANDIDATE_FIXED_ALLOWANCE_BYTES) as usize
    }
}

fn candidate_limit(input_units: usize) -> (limit: usize)
    ensures
        limit == candidate_limit_spec(input_units),
{
    let bits = input_units / 8 + if input_units % 8 == 0 {
        0
    } else {
        1
    };
    if bits > usize::MAX - I7_CANDIDATE_FIXED_ALLOWANCE_BYTES {
        usize::MAX
    } else {
        bits + I7_CANDIDATE_FIXED_ALLOWANCE_BYTES
    }
}

/// The first resource bound an I7 candidate breaks, if any.
pub open spec fn i7_resource_failure(candidate: I7ScanReceipt) -> Option<GateError> {
    let diagnostics = candidate.cache_diagnostics;
    if diagnostics.prefilter_retained_bytes > I7_MAXIMUM_PREFILTER_BYTES {
        Some(
            GateError::PrefilterTooLarge {
                evidence: Evidence::SafePrefilter,
                bytes: diagnostics.prefilter_retained_bytes,
            },
        )
    } else if diagnostics.prefilter_candidate_bytes > candidate_limit_spec(candidate.input_units) {
        Some(
            GateError::CandidateStorageTooLarge {
                evidence: Evidence::SafePrefilter,
                bytes: diagnostics.prefilter_candidate_bytes,
                limit: candidate_limit_spec(candidate.input_units),
            },
        )
    } else if diagnostics.prefilter_path@ != "literal-prefilter"@ && diagnostics.prefilter_candidate_bytes != 0 {
        Some(GateError::NonLiteralCandidateBitmap)
    } else {
        None
    }
}

/// Checks an I7 candidate's retained prefilter and candidate storage.
pub fn validate_i7_resources(candidate: &I7ScanReceipt) -> (result: Result<(), GateError>)
    ensures
        match i7_resource_failure(*candidate) {
            Some(error) => result == Err::<(), GateError>(error),
            None => result is Ok,
        },
{
    let diagnostics = &candidate.cache_diagnostics;
    if diagnostics.prefilter_retained_bytes > I7_MAXIMUM_PREFILTER_BYTES {
        return Err(
            GateError::PrefilterTooLarge {
                evidence: Evidence::SafePrefilter,
                bytes: diagnostics.prefilter_retained_bytes,
            },
        );
    }
    let limit = candidate_limit(candidate.input_units);
    if diagnostics.prefilter_candidate_bytes > limit {
        return Err(
            GateError::CandidateStorageTooLarge {
                evidence: Evidence::SafePrefilter,
                bytes: diagnostics.prefilter_candidate_bytes,
                limit,
            },
        );
    }
    if !text_is(&diagnostics.prefilter_path, "literal-prefilter") && diagnostics.prefilter_candidate_bytes != 0 {
        return Err(GateError::NonLiteralCandidateBitmap);
    }
    Ok(())
}

/// A passed safe-prefilter comparison.
#[derive(Clone, Debug, PartialEq, Eq)]
pub struct I7ComparisonReceipt {
    pub schema_version: u32,
    pub evidence_id: &'static str,
    pub comparison: &'static str,
    pub scenario: String,
    pub gate: String,
    pub revision: String,
    pub runner: String,
    pub pattern_count: usize,
    pub corpus_bytes: usize,
    pub input_units: usize,
    pub event_count: usize,
    pub event_digest: String,
    pub baseline_median_compile_ns: u128,
    pub candidate_median_compile_ns: u128,
    pub baseline_median_scan_ns: u128,
    pub candidate_median_scan_ns: u128,
    pub improvement_ns: u128,
    pub improvement_basis_points: u128,
    pub regression_ns: u128,
    pub slowdown_basis_points: u128,
    pub compile_regression_ns: u128,
    pub baseline_diagnostics: CacheDiagnosticsReceipt,
    pub candidate_diagnostics: CacheDiagnosticsReceipt,
    pub status: &'static str,
}

/// The first failed check of a safe-prefilter comparison, if any.
pub open spec fn i7_failure(baseline: I7ScanReceipt, candidate: I7ScanReceipt) -> Option<GateError> {
    let b = baseline.median_scan_ns;
    let c = candidate.median_scan_ns;
    let improvement_ns = sat_sub(b as int, c as int) as u128;
    let improvement = decrease_spec(b, c);
    let regression_ns = sat_sub(c as int, b as int) as u128;
    let slowdown = increase_spec(b, c);
    let compile_regression_ns = sat_sub(candidate.median_compile_ns as int, baseline.median_compile_ns as int) as u128;
    if !baseline.valid_spec() {
        Some(GateError::InvalidMetadata { evidence: Evidence::SafePrefilter, role: Role::Baseline })
    } else if !candidate.valid_spec() {
        Some(GateError::InvalidMetadata { evidence: Evidence::SafePrefilter, role: Role::Candidate })
    } else if !baseline.same_fixture_spec(&candidate) {
        Some(GateError::FixtureIdentitiesDiffer { evidence: Evidence::SafePrefilter })
    } else if baseline.revision@ != candidate.revision@ || baseline.runner@ != candidate.runner@ {
        Some(GateError::DifferentRevisionOrRunner { evidence: Evidence::SafePrefilter })
    } else if baseline.prefilter_mode@ != "off"@ || candidate.prefilter_mode@ != "on"@ {
        Some(GateError::PrefilterModes)
    } else if baseline.cache_diagnostics.prefilter_path@ != "all-starts"@
        || baseline.cache_diagnostics.prefilter_bypass@ != "disabled"@ {
        Some(GateError::BaselineNotAllStarts { evidence: Evidence::SafePrefilter })
    } else if !candidate.path_valid_spec() {
        Some(GateError::UnexpectedPath)
    } else if i7_resource_failure(candidate) is Some {
        i7_resource_failure(candidate)
    } else if baseline.gate@ == "positive-10-percent-and-2-ms"@ && (improvement
        < I7_REQUIRED_IMPROVEMENT_BASIS_POINTS || improvement_ns < I7_REQUIRED_IMPROVEMENT_NS) {
        Some(
            GateError::PositiveGateFailed {
                evidence: Evidence::SafePrefilter,
                baseline_ns: b,
                candidate_ns: c,
                improvement_ns,
                improvement_basis_points: improvement,
            },
        )
    } else if baseline.gate@ == "guard-3-percent-and-1-ms"@ && slowdown > I7_MAXIMUM_REGRESSION_BASIS_POINTS
        && regression_ns > I7_MAXIMUM_REGRESSION_NS {
        Some(
            GateError::RegressionGateFailed {
                evidence: Evidence::SafePrefilter,
                baseline_ns: b,
                candidate_ns: c,
                regression_ns,
                slowdown_basis_points: slowdown,
            },
        )
    } else if baseline.gate@ != "positive-10-percent-and-2-ms"@ && baseline.gate@ != "guard-3-percent-and-1-ms"@ {
        Some(GateError::UnknownGate { evidence: Evidence::SafePrefilter })
    } else if compile_regression_ns > I7_MAXIMUM_COMPILE_REGRESSION_NS {
        Some(
            GateError::CompileRegression {
                evidence: Evidence::SafePrefilter,
                baseline_ns: baseline.median_compile_ns,
                candidate_ns: candidate.median_compile_ns,
                amount: compile_regression_ns,
            },
        )
    } else {
        None
    }
}

/// Compares a prefilter-off receipt with a prefilter-on receipt of the same
/// revision, runner, and fixture under the baseline's gate, after checking
/// the recorded paths and the candidate's resources.
pub fn compare_i7(baseline: &I7ScanReceipt, candidate: &I7ScanReceipt) -> (result: Result<
    I7ComparisonReceipt,
    GateError,
>)
    ensures
        match i7_failure(*baseline, *candidate) {
            Some(error) => result == Err::<I7ComparisonReceipt, GateError>(error),
            None => result matches Ok(receipt) && receipt.status == "pass"
                && receipt.evidence_id == "I7-P1"
                && receipt.scenario@ == baseline.scenario@
                && receipt.gate@ == baseline.gate@
                && receipt.revision@ == baseline.revision@
                && receipt.runner@ == baseline.runner@
                && receipt.pattern_count == baseline.pattern_count
                && receipt.corpus_bytes == baseline.corpus_bytes
                && receipt.input_units == baseline.input_units
                && receipt.event_count == baseline.event_count
                && receipt.event_digest@ == baseline.event_digest@
                && receipt.baseline_median_compile_ns == baseline.median_compile_ns
                && receipt.candidate_median_compile_ns == candidate.median_compile_ns
                && receipt.baseline_median_scan_ns == baseline.median_scan_ns
                && receipt.candidate_median_scan_ns == candidate.median_scan_ns
                && receipt.improvement_ns == sat_sub(baseline.median_scan_ns as int, candidate.median_scan_ns as int)
                && receipt.improvement_basis_points == decrease_spec(baseline.median_scan_ns, candidate.median_scan_ns)
                && receipt.regression_ns == sat_sub(candidate.median_scan_ns as int, baseline.median_scan_ns as int)
                && receipt.slowdown_basis_points == increase_spec(baseline.median_scan_ns, candidate.median_scan_ns)
                && receipt.compile_regression_ns == sat_sub(candidate.median_compile_ns as int, baseline.median_compile_ns as int)
                && receipt.baseline_diagnostics == baseline.cache_diagnostics
                && receipt.candidate_diagnostics == candidate.cache_diagnostics,
        },
{
    if !baseline.validate() {
        return Err(GateError::InvalidMetadata { evidence: Evidence::SafePrefilter, role: Role::Baseline });
    }
    if !candidate.validate() {
        return Err(GateError::InvalidMetadata { evidence: Evidence::SafePrefilter, role: Role::Candidate });
    }
    if !baseline.same_fixture(candidate) {
        return Err(GateError::FixtureIdentitiesDiffer { evidence: Evidence::SafePrefilter });
    }
    if baseline.revision != candidate.revision || baseline.runner != candidate.runner {
        return Err(GateError::DifferentRevisionOrRunner { evidence: Evidence::SafePrefilter });
    }
    if !text_is(&baseline.prefilter_mode, "off") || !text_is(&candidate.prefilter_mode, "on") {
        return Err(GateError::PrefilterModes);
    }
    if !text_is(&baseline.cache_diagnostics.prefilter_path, "all-starts") || !text_is(
        &baseline.cache_diagnostics.prefilter_bypass,
        "disabled",
    ) {
        return Err(GateError::BaselineNotAllStarts { evidence: Evidence::SafePrefilter });
    }
    if !candidate.validate_path() {
        return Err(GateError::UnexpectedPath);
    }
    match validate_i7_resources(candidate) {
        Ok(()) => {},
        Err(error) => return Err(error),
    }
    let b = baseline.median_scan_ns;
    let c = candidate.median_scan_ns;
    let improvement_ns = saturating_difference(b, c);
    let improvement_basis_points = relative_decrease_basis_points(b, c);
    let regression_ns = saturating_difference(c, b);
    let slowdown_basis_points = relative_increase_basis_points(b, c);
    let compile_regression_ns = saturating_difference(candidate.median_compile_ns, baseline.median_compile_ns);
    let positive = text_is(&baseline.gate, "positive-10-percent-and-2-ms");
    let guard = text_is(&baseline.gate, "guard-3-percent-and-1-ms");
    if positive && (improvement_basis_points < I7_REQUIRED_IMPROVEMENT_BASIS_POINTS || improvement_ns
        < I7_REQUIRED_IMPROVEMENT_NS) {
        return Err(
            GateError::PositiveGateFailed {
                evidence: Evidence::SafePrefilter,
                baseline_ns: b,
                candidate_ns: c,
                improvement_ns,
                improvement_basis_points,
            },
        );
    }
    if guard && slowdown_basis_points > I7_MAXIMUM_REGRESSION_BASIS_POINTS && regression_ns
        > I7_MAXIMUM_REGRESSION_NS {
        return Err(
            GateError::RegressionGateFailed {
                evidence: Evidence::SafePrefilter,
                baseline_ns: b,
                candidate_ns: c,
                regression_ns,
                slowdown_basis_points,
            },
        );
    }
    if !positive && !guard {
        return Err(GateError::UnknownGate { evidence: Evidence::SafePrefilter });
    }
    if compile_regression_ns > I7_MAXIMUM_COMPILE_REGRESSION_NS {
        return Err(
            GateError::CompileRegression {
                evidence: Evidence::SafePrefilter,
                baseline_ns: baseline.median_compile_ns,
                candidate_ns: candidate.median_compile_ns,
                amount: compile_regression_ns,
            },
        );
    }
    Ok(
        I7ComparisonReceipt {
            schema_version: 1,
            evidence_id: "I7-P1",
            comparison: "safe-prefilter-campaign-v1",
            scenario: baseline.scenario.clone(),
            gate: baseline.gate.clone(),
            revision: baseline.revision.clone(),
            runner: baseline.runner.clone(),
            pattern_count: baseline.pattern_count,
            corpus_bytes: baseline.corpus_bytes,
            input_units: baseline.input_units,
            event_count: baseline.event_count,
            event_digest: baseline.event_digest.clone(),
            baseline_median_compile_ns: baseline.median_compile_ns,
            candidate_median_compile_ns: candidate.median_compile_ns,
            baseline_median_scan_ns: b,
            candidate_median_scan_ns: c,
            improvement_ns,
            improvement_basis_points,
            regression_ns,
            slowdown_basis_points,
            compile_regression_ns,
            baseline_diagnostics: copy_diagnostics(&baseline.cache_diagnostics),
            candidate_diagnostics: copy_diagnostics(&candidate.cache_diagnostics),
            status: "pass",
        },
    )
}

/// The first diagnostics check a large-corpus prefilter pair fails, if any.
pub open spec fn i7_wuthering_diagnostics_failure(baseline: ScaleScanReceipt, candidate: ScaleScanReceipt) -> Option<
    GateError,
> {
    match (baseline.cache_diagnostics, candidate.cache_diagnostics) {
        (None, _) => Some(GateError::MissingDiagnostics { role: Role::Baseline }),
        (Some(_), None) => Some(GateError::MissingDiagnostics { role: Role::Candidate }),
        (Some(b), Some(c)) => if b.prefilter_path@ != "all-starts"@ || b.prefilter_bypass@ != "disabled"@ {
            Some(GateError::BaselineNotAllStarts { evidence: Evidence::WutheringPrefilter })
        } else if c.prefilter_path@ != "literal-prefilter"@ || c.prefilter_bypass@ != "none"@ {
            Some(GateError::CandidateNotLiteral)
        } else if c.prefilter_retained_bytes > I7_MAXIMUM_PREFILTER_BYTES {
            Some(
                GateError::PrefilterTooLarge {
                    evidence: Evidence::WutheringPrefilter,
                    bytes: c.prefilter_retained_bytes,
                },
            )
        } else if c.prefilter_candidate_bytes > candidate_limit_spec(candidate.input_units) {
            Some(
                GateError::CandidateStorageTooLarge {
                    evidence: Evidence::WutheringPrefilter,
                    bytes: c.prefilter_candidate_bytes,
                    limit: candidate_limit_spec(candidate.input_units),
                },
            )
        } else {
            None
        },
    }
}

/// Checks that the baseline scanned every start with the prefilter
/// disabled and that the candidate used the literal prefilter within its
/// memory bounds; returns the candidate's diagnostics.
pub fn validate_i7_wuthering_diagnostics(baseline: &ScaleScanReceipt, candidate: &ScaleScanReceipt) -> (result:
    Result<CacheDiagnosticsReceipt, GateError>)
    ensures
        match i7_wuthering_diagnostics_failure(*baseline, *candidate) {
            Some(error) => result == Err::<CacheDiagnosticsReceipt, GateError>(error),
            None => candidate.cache_diagnostics matches Some(c) && result == Ok::<CacheDiagnosticsReceipt, GateError>(c),
        },
{
    let b = match &baseline.cache_diagnostics {
        Some(b) => b,
        None => return Err(GateError::MissingDiagnostics { role: Role::Baseline }),
    };
    let c = match &candidate.cache_diagnostics {
        Some(c) => c,
        None => return Err(GateError::MissingDiagnostics { role: Role::Candidate }),
    };
    if !text_is(&b.prefilter_path, "all-starts") || !text_is(&b.prefilter_bypass, "disabled") {
        return Err(GateError::BaselineNotAllStarts { evidence: Evidence::WutheringPrefilter });
    }
    if !text_is(&c.prefilter_path, "literal-prefilter") || !text_is(&c.prefilter_bypass, "none") {
        return Err(GateError::CandidateNotLiteral);
    }
    if c.prefilter_retained_bytes > I7_MAXIMUM_PREFILTER_BYTES {
        return Err(
            GateError::PrefilterTooLarge {
                evidence: Evidence::WutheringPrefilter,
                bytes: c.prefilter_retained_bytes,
            },
        );
    }
    let limit = candidate_limit(candidate.input_units);
    if c.prefilter_candidate_bytes > limit {
        return Err(
            GateError::CandidateStorageTooLarge {
                evidence: Evidence::WutheringPrefilter,
                bytes: c.prefilter_candidate_bytes,
                limit,
            },
        );
    }
    Ok(copy_diagnostics(c))
}

/// A passed large-corpus prefilter comparison.
#[derive(Clone, Debug, PartialEq, Eq)]
pub struct I7ScaleComparisonReceipt {
    pub schema_version: u32,
    pub evidence_id: &'static str,
    pub comparison: &'static str,
    pub revision: String,
    pub runner: String,
    pub baseline_measured_at_utc: Option<String>,
    pub candidate_measured_at_utc: Option<String>,
    pub pattern_count: usize,
    pub corpus_bytes: usize,
    pub input_units: usize,
    pub event_count: usize,
    pub event_digest: String,
    pub baseline_median_compile_ns: u128,
    pub candidate_median_compile_ns: u128,
    pub baseline_median_scan_ns: u128,
    pub candidate_median_scan_ns: u128,
    pub improvement_ns: u128,
    pub improvement_basis_points: u128,
    pub compile_regression_ns: u128,
    pub candidate_diagnostics: CacheDiagnosticsReceipt,
    pub status: &'static str,
}

/// Whether a pattern count belongs to the frozen large-corpus campaign.
pub open spec fn campaign_pattern_count(count: usize) -> bool {
    count == 1_000 || count == 5_000 || count == 10_000
}

/// The first failed check of a large-corpus prefilter comparison, if any.
pub open spec fn i7_wuthering_failure(baseline: ScaleScanReceipt, candidate: ScaleScanReceipt) -> Option<GateError> {
    let b = baseline.median_scan_ns;
    let c = candidate.median_scan_ns;
    let improvement_ns = sat_sub(b as int, c as int) as u128;
    let improvement = decrease_spec(b, c);
    let compile_regression_ns = sat_sub(candidate.median_compile_ns as int, baseline.median_compile_ns as int) as u128;
    if !baseline.valid_spec() {
        Some(GateError::InvalidMetadata { evidence: Evidence::WutheringPrefilter, role: Role::Baseline })
    } else if !candidate.valid_spec() {
        Some(GateError::InvalidMetadata { evidence: Evidence::WutheringPrefilter, role: Role::Candidate })
    } else if !baseline.same_fixture_spec(&candidate) {
        Some(GateError::FixtureIdentitiesDiffer { evidence: Evidence::WutheringPrefilter })
    } else if baseline.revision@ != candidate.revision@ || baseline.runner@ != candidate.runner@ {
        Some(GateError::DifferentRevisionOrRunner { evidence: Evidence::WutheringPrefilter })
    } else if baseline.worker_count != 1 || candidate.worker_count != 1 {
        Some(GateError::WorkerCount { evidence: Evidence::WutheringPrefilter })
    } else if baseline.warmup_iterations < I7_WARMUP_ITERATIONS || baseline.measured_iterations
        < I7_MEASURED_ITERATIONS {
        Some(GateError::MeasurementProtocol)
    } else if !campaign_pattern_count(baseline.pattern_count) {
        Some(GateError::PatternCountOutsideCampaign)
    } else if i7_wuthering_diagnostics_failure(baseline, candidate) is Some {
        i7_wuthering_diagnostics_failure(baseline, candidate)
    } else if improvement < I7_REQUIRED_IMPROVEMENT_BASIS_POINTS || improvement_ns < I7_REQUIRED_IMPROVEMENT_NS {
        Some(
            GateError::PositiveGateFailed {
                evidence: Evidence::WutheringPrefilter,
                baseline_ns: b,
                candidate_ns: c,
                improvement_ns,
                improvement_basis_points: improvement,
            },
        )
    } else if compile_regression_ns > I7_MAXIMUM_COMPILE_REGRESSION_NS {
        Some(
            GateError::CompileRegression {
                evidence: Evidence::WutheringPrefilter,
                baseline_ns: baseline.median_compile_ns,
                candidate_ns: candidate.median_compile_ns,
                amount: compile_regression_ns,
            },
        )
    } else {
        None
    }
}

/// Compares one-worker large-corpus receipts of one revision and runner,
/// prefilter disabled then enabled: the candidate must be at least ten
/// percent and two milliseconds faster, within its memory bounds, and
/// compile at most 25 ms slower.
pub fn compare_i7_wuthering(baseline: &ScaleScanReceipt, candidate: &ScaleScanReceipt) -> (result: Result<
    I7ScaleComparisonReceipt,
    GateError,
>)
    ensures
        match i7_wuthering_failure(*baseline, *candidate) {
            Some(error) => result == Err::<I7ScaleComparisonReceipt, GateError>(error),
            None => result matches Ok(receipt) && receipt.status == "pass"
                && receipt.evidence_id == "I7-B1"
                && receipt.revision@ == baseline.revision@
                && receipt.runner@ == baseline.runner@
                && receipt.baseline_measured_at_utc == baseline.measured_at_utc
                && receipt.candidate_measured_at_utc == candidate.measured_at_utc
                && receipt.pattern_count == baseline.pattern_count
                && receipt.corpus_bytes == baseline.corpus_bytes
                && receipt.input_units == baseline.input_units
                && receipt.event_count == baseline.event_count
                && receipt.event_digest@ == baseline.event_digest@
                && receipt.baseline_median_compile_ns == baseline.median_compile_ns
                && receipt.candidate_median_compile_ns == candidate.median_compile_ns
                && receipt.baseline_median_scan_ns == baseline.median_scan_ns
                && receipt.candidate_median_scan_ns == candidate.median_scan_ns
                && receipt.improvement_ns == sat_sub(baseline.median_scan_ns as int, candidate.median_scan_ns as int)
                && receipt.improvement_basis_points == decrease_spec(baseline.median_scan_ns, candidate.median_scan_ns)
                && receipt.compile_regression_ns == sat_sub(candidate.median_compile_ns as int, baseline.median_compile_ns as int)
                && Some(receipt.candidate_diagnostics) == candidate.cache_diagnostics,
        },
{
    if !baseline.validate() {
        return Err(GateError::InvalidMetadata { evidence: Evidence::WutheringPrefilter, role: Role::Baseline });
    }
    if !candidate.validate() {
        return Err(GateError::InvalidMetadata { evidence: Evidence::WutheringPrefilter, role: Role::Candidate });
    }
    if !baseline.same_fixture(candidate) {
        return Err(GateError::FixtureIdentitiesDiffer { evidence: Evidence::WutheringPrefilter });
    }
    if baseline.revision != candidate.revision || baseline.runner != candidate.runner {
        return Err(GateError::DifferentRevisionOrRunner { evidence: Evidence::WutheringPrefilter });
    }
    if baseline.worker_count != 1 || candidate.worker_count != 1 {
        return Err(GateError::WorkerCount { evidence: Evidence::WutheringPrefilter });
    }
    if baseline.warmup_iterations < I7_WARMUP_ITERATIONS || baseline.measured_iterations < I7_MEASURED_ITERATIONS {
        return Err(GateError::MeasurementProtocol);
    }
    if !(baseline.pattern_count == 1_000 || baseline.pattern_count == 5_000 || baseline.pattern_count == 10_000) {
        return Err(GateError::PatternCountOutsideCampaign);
    }
    let candidate_diagnostics = match validate_i7_wuthering_diagnostics(baseline, candidate) {
        Ok(diagnostics) => diagnostics,
        Err(error) => return Err(error),
    };
    let b = baseline.median_scan_ns;
    let c = candidate.median_scan_ns;
    let improvement_ns = saturating_difference(b, c);
    let improvement_basis_points = relative_decrease_basis_points(b, c);
    if improvement_basis_points < I7_REQUIRED_IMPROVEMENT_BASIS_POINTS || improvement_ns < I7_REQUIRED_IMPROVEMENT_NS {
        return Err(
            GateError::PositiveGateFailed {
                evidence: Evidence::WutheringPrefilter,
                baseline_ns: b,
                candidate_ns: c,
                improvement_ns,
                improvement_basis_points,
            },
        );
    }
    let compile_regression_ns = saturating_difference(candidate.median_compile_ns, baseline.median_compile_ns);
    if compile_regression_ns > I7_MAXIMUM_COMPILE_REGRESSION_NS {
        return Err(
            GateError::CompileRegression {
                evidence: Evidence::WutheringPrefilter,
                baseline_ns: baseline.median_compile_ns,
                candidate_ns: candidate.median_compile_ns,
                amount: compile_regression_ns,
            },
        );
    }
    Ok(
        I7ScaleComparisonReceipt {
            schema_version: 1,
            evidence_id: "I7-B1",
            comparison: "wuthering-safe-prefilter-v1",
            revision: baseline.revision.clone(),
            runner: baseline.runner.clone(),
            baseline_measured_at_utc: copy_optional_text(&baseline.measured_at_utc),
            candidate_measured_at_utc: copy_optional_text(&candidate.measured_at_utc),
            pattern_count: baseline.pattern_count,
            corpus_bytes: baseline.corpus_bytes,
            input_units: baseline.input_units,
            event_count: baseline.event_count,
            event_digest: baseline.event_digest.clone(),
            baseline_median_compile_ns: baseline.median_compile_ns,
            candidate_median_compile_ns: candidate.median_compile_ns,
            baseline_median_scan_ns: b,
            candidate_median_scan_ns: c,
            improvement_ns,
            improvement_basis_points,
            compile_regression_ns,
            candidate_diagnostics,
            status: "pass",
        },
    )
}

} // verus!
