use rustmatch::evidence::gates::{
    compare_i6, compare_i7, compare_i7_wuthering, compare_tripwire, compare_wuthering_tripwire,
    relative_decrease_basis_points, relative_increase_basis_points, validate_i7_resources,
    Evidence, GateError, Role,
};
use rustmatch::evidence::receipts::{
    CacheDiagnosticsReceipt, I6ScanReceipt, I7ScanReceipt, ScaleScanReceipt, TripwireReceipt,
};

#[test]
fn tripwire_accepts_noise_below_the_absolute_limit() -> Result<(), GateError> {
    let baseline = tripwire_receipt(100_000_000);
    let candidate = tripwire_receipt(160_000_000);

    let comparison = compare_tripwire(&baseline, &candidate)?;

    assert_eq!(comparison.status, "pass");
    Ok(())
}

#[test]
fn tripwire_rejects_a_catastrophic_slowdown() {
    let baseline = tripwire_receipt(200_000_000);
    let candidate = tripwire_receipt(400_000_000);

    let result = compare_tripwire(&baseline, &candidate);

    assert!(matches!(result, Err(GateError::TripwireFired { .. })));
}

#[test]
fn tripwire_rejects_different_fixture_identities() {
    let baseline = tripwire_receipt(200_000_000);
    let mut candidate = tripwire_receipt(210_000_000);
    candidate.event_digest = "fnv1a64:different".to_owned();

    let result = compare_tripwire(&baseline, &candidate);

    assert!(matches!(result, Err(GateError::FixtureIdentitiesDiffer { .. })));
}

#[test]
fn wuthering_tripwire_accepts_small_absolute_noise() -> Result<(), GateError> {
    let baseline = scale_receipt(40_000_000, "base");
    let mut candidate = scale_receipt(85_000_000, "candidate");
    candidate.measured_at_utc = Some("2026-07-18T05:26:02Z".to_owned());

    let comparison = compare_wuthering_tripwire(&baseline, &candidate)?;

    assert_eq!(comparison.status, "pass");
    assert_eq!(
        comparison.baseline_measured_at_utc.as_deref(),
        Some("2026-07-18T05:25:01Z")
    );
    assert_eq!(
        comparison.candidate_measured_at_utc.as_deref(),
        Some("2026-07-18T05:26:02Z")
    );
    Ok(())
}

#[test]
fn wuthering_tripwire_rejects_a_large_absolute_and_relative_regression() {
    let baseline = scale_receipt(50_000_000, "base");
    let candidate = scale_receipt(130_000_000, "candidate");

    let result = compare_wuthering_tripwire(&baseline, &candidate);

    assert!(matches!(result, Err(GateError::TripwireFired { .. })));
}

#[test]
fn wuthering_tripwire_requires_identical_event_evidence() {
    let baseline = scale_receipt(50_000_000, "base");
    let mut candidate = scale_receipt(55_000_000, "candidate");
    candidate.event_digest = "multiset64:different".to_owned();

    let result = compare_wuthering_tripwire(&baseline, &candidate);

    assert!(matches!(result, Err(GateError::FixtureIdentitiesDiffer { .. })));
}

#[test]
fn i7_comparison_requires_both_positive_thresholds() {
    let baseline = i7_receipt(100_000_000, "off");
    let candidate = i7_receipt(91_000_000, "on");

    let result = compare_i7(&baseline, &candidate);

    assert!(matches!(result, Err(GateError::PositiveGateFailed { .. })));
}

#[test]
fn i7_comparison_accepts_a_measured_positive_result() -> Result<(), GateError> {
    let baseline = i7_receipt(100_000_000, "off");
    let candidate = i7_receipt(80_000_000, "on");

    let comparison = compare_i7(&baseline, &candidate)?;

    assert_eq!(comparison.status, "pass");
    assert_eq!(comparison.improvement_basis_points, 2_000);
    Ok(())
}

#[test]
fn i7_wuthering_comparison_requires_the_full_measurement_protocol() {
    let mut baseline = scale_receipt(100_000_000, "revision");
    let mut candidate = scale_receipt(80_000_000, "revision");
    baseline.corpus_bytes = 8 * 1024 * 1024;
    candidate.corpus_bytes = 8 * 1024 * 1024;
    baseline.input_units = 8 * 1024 * 1024;
    candidate.input_units = 8 * 1024 * 1024;
    baseline.cache_diagnostics = Some(prefilter_diagnostics("all-starts", "disabled"));
    candidate.cache_diagnostics = Some(prefilter_diagnostics("literal-prefilter", "none"));

    let result = compare_i7_wuthering(&baseline, &candidate);

    assert!(matches!(result, Err(GateError::MeasurementProtocol)));
}

#[test]
fn i7_wuthering_comparison_accepts_exact_positive_evidence() -> Result<(), GateError> {
    let mut baseline = scale_receipt(100_000_000, "revision");
    let mut candidate = scale_receipt(80_000_000, "revision");
    baseline.corpus_bytes = 8 * 1024 * 1024;
    candidate.corpus_bytes = 8 * 1024 * 1024;
    baseline.input_units = 8 * 1024 * 1024;
    candidate.input_units = 8 * 1024 * 1024;
    baseline.warmup_iterations = 3;
    baseline.measured_iterations = 7;
    candidate.warmup_iterations = 3;
    candidate.measured_iterations = 7;
    baseline.cache_diagnostics = Some(prefilter_diagnostics("all-starts", "disabled"));
    candidate.cache_diagnostics = Some(prefilter_diagnostics("literal-prefilter", "none"));

    let comparison = compare_i7_wuthering(&baseline, &candidate)?;

    assert_eq!(comparison.status, "pass");
    assert_eq!(comparison.improvement_basis_points, 2_000);
    Ok(())
}

#[test]
fn i6_comparison_requires_a_positive_target_result() {
    let baseline = i6_receipt(100_000_000, "base");
    let candidate = i6_receipt(97_000_000, "candidate");

    let result = compare_i6(&baseline, &candidate);

    assert!(matches!(result, Err(GateError::PositiveGateFailed { .. })));
}

#[test]
fn i6_comparison_accepts_an_improvement_beyond_noise() -> Result<(), GateError> {
    let baseline = i6_receipt(100_000_000, "base");
    let candidate = i6_receipt(94_000_000, "candidate");

    let comparison = compare_i6(&baseline, &candidate)?;

    assert_eq!(comparison.status, "pass");
    Ok(())
}

#[test]
fn i6_comparison_rejects_a_repeatable_compile_regression() {
    let baseline = i6_receipt(100_000_000, "base");
    let mut candidate = i6_receipt(90_000_000, "candidate");
    candidate.median_compile_ns = 1_040_000;

    let result = compare_i6(&baseline, &candidate);

    assert!(matches!(result, Err(GateError::CompileRegression { .. })));
}

#[test]
fn basis_points_are_exact_and_saturate_for_a_zero_baseline() {
    assert_eq!(relative_decrease_basis_points(100_000_000, 80_000_000), 2_000);
    assert_eq!(relative_decrease_basis_points(100, 120), 0);
    assert_eq!(relative_increase_basis_points(1_000_000, 1_040_000), 400);
    assert_eq!(relative_increase_basis_points(0, 5), u128::MAX);
    assert_eq!(relative_increase_basis_points(u128::MAX / 2, u128::MAX), 2);
}

#[test]
fn gate_failures_name_the_first_broken_check() {
    let mut baseline = tripwire_receipt(1);
    baseline.profile = "debug".to_owned();
    assert_eq!(
        compare_tripwire(&baseline, &tripwire_receipt(1)),
        Err(GateError::InvalidMetadata { evidence: Evidence::Tripwire, role: Role::Baseline })
    );
    let mut candidate = tripwire_receipt(1);
    candidate.runner = "other".to_owned();
    assert_eq!(
        compare_tripwire(&tripwire_receipt(1), &candidate),
        Err(GateError::DifferentRunner { evidence: Evidence::Tripwire })
    );
    let mut oversized = i7_receipt(1, "on");
    oversized.cache_diagnostics.prefilter_retained_bytes = 9 * 1024 * 1024;
    assert_eq!(
        validate_i7_resources(&oversized),
        Err(GateError::PrefilterTooLarge { evidence: Evidence::SafePrefilter, bytes: 9 * 1024 * 1024 })
    );
    let mut gate = i6_receipt(100, "base");
    gate.gate = "unknown".to_owned();
    let mut other = i6_receipt(100, "candidate");
    other.gate = "unknown".to_owned();
    assert_eq!(
        compare_i6(&gate, &other),
        Err(GateError::UnknownGate { evidence: Evidence::StateCache })
    );
}

fn tripwire_receipt(median_scan_ns: u128) -> TripwireReceipt {
    TripwireReceipt {
        schema_version: 1,
        evidence_id: "C1".to_owned(),
        benchmark: "ascii-literal-tripwire-v1".to_owned(),
        claim: "coarse-severe-regression-signal-only".to_owned(),
        revision: "revision".to_owned(),
        runner: "runner".to_owned(),
        profile: "release".to_owned(),
        pattern_count: 64,
        corpus_bytes: 1024 * 1024,
        event_count: 64,
        event_digest: "fnv1a64:receipt".to_owned(),
        warmup_iterations: 3,
        measured_iterations: 7,
        median_scan_ns,
        correctness: "pass".to_owned(),
    }
}

fn i6_receipt(median_scan_ns: u128, revision: &str) -> I6ScanReceipt {
    I6ScanReceipt {
        schema_version: 1,
        evidence_id: "I6-P1".to_owned(),
        benchmark: "state-cache-campaign-v1".to_owned(),
        claim: "optimization-admission".to_owned(),
        scenario: "literal-sparse".to_owned(),
        gate: "improvement-5-percent".to_owned(),
        revision: revision.to_owned(),
        runner: "runner".to_owned(),
        profile: "release".to_owned(),
        pattern_count: 64,
        corpus_bytes: 1024 * 1024,
        event_count: 64,
        event_digest: "fnv1a64:receipt".to_owned(),
        warmup_iterations: 3,
        measured_iterations: 7,
        median_compile_ns: 1_000_000,
        median_scan_ns,
        cache_diagnostics: None,
        correctness: "pass".to_owned(),
    }
}

fn i7_receipt(median_scan_ns: u128, mode: &str) -> I7ScanReceipt {
    let diagnostics = if mode == "off" {
        prefilter_diagnostics("all-starts", "disabled")
    } else {
        prefilter_diagnostics("literal-prefilter", "none")
    };
    I7ScanReceipt {
        schema_version: 1,
        evidence_id: "I7-P1".to_owned(),
        benchmark: "safe-prefilter-campaign-v1".to_owned(),
        claim: "optimization-admission".to_owned(),
        scenario: "literal-sparse".to_owned(),
        gate: "positive-10-percent-and-2-ms".to_owned(),
        expected_path: "literal-prefilter".to_owned(),
        prefilter_mode: mode.to_owned(),
        revision: "revision".to_owned(),
        runner: "runner".to_owned(),
        profile: "release".to_owned(),
        pattern_count: 1_000,
        corpus_bytes: 8 * 1024 * 1024,
        input_units: 8 * 1024 * 1024,
        cache_scrub_bytes: 256 * 1024 * 1024,
        cache_scrub_digest: "fnv1a64:scrub".to_owned(),
        event_count: 1_000,
        event_digest: "fnv1a64:events".to_owned(),
        warmup_iterations: 3,
        measured_iterations: 7,
        median_compile_ns: 5_000_000,
        median_scan_ns,
        cache_diagnostics: diagnostics,
        correctness: "pass".to_owned(),
    }
}

fn prefilter_diagnostics(path: &str, bypass: &str) -> CacheDiagnosticsReceipt {
    CacheDiagnosticsReceipt {
        prefilter_path: path.to_owned(),
        prefilter_bypass: bypass.to_owned(),
        prefilter_retained_bytes: 512 * 1024,
        prefilter_candidate_bytes: if path == "literal-prefilter" {
            64 * 1024
        } else {
            0
        },
        ..CacheDiagnosticsReceipt::default()
    }
}

fn scale_receipt(median_scan_ns: u128, revision: &str) -> ScaleScanReceipt {
    ScaleScanReceipt {
        schema_version: 1,
        evidence_id: "I6-B1".to_owned(),
        benchmark: "wuthering-literal-scale-v1".to_owned(),
        claim: "exploratory-scale-and-cache-pressure-evidence".to_owned(),
        revision: revision.to_owned(),
        runner: "runner".to_owned(),
        measured_at_utc: Some("2026-07-18T05:25:01Z".to_owned()),
        profile: "release".to_owned(),
        pattern_source: "patterns.txt".to_owned(),
        pattern_source_digest: "fnv1a64:patterns".to_owned(),
        corpus_source: "corpus.txt".to_owned(),
        corpus_source_digest: "fnv1a64:corpus".to_owned(),
        pattern_count: 5_000,
        worker_count: 1,
        corpus_bytes: 675_259,
        input_units: 675_259,
        cache_scrub_bytes: 64 * 1024 * 1024,
        cache_scrub_digest: "fnv1a64:scrub".to_owned(),
        event_count: 74_604,
        event_digest: "multiset64:receipt".to_owned(),
        warmup_iterations: 1,
        measured_iterations: 3,
        median_compile_ns: 5_000_000,
        median_scan_ns,
        cache_diagnostics: None,
        correctness: "pass".to_owned(),
    }
}
