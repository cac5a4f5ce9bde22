//! Measurement receipts and their metadata checks.
use vstd::prelude::*;

verus! {

/// Minimum warmup scans of an I7 measurement.
pub const I7_WARMUP_ITERATIONS: u32 = 3;
/// Minimum measured scans of an I7 measurement.
pub const I7_MEASURED_ITERATIONS: u32 = 7;

/// Whether `value` holds exactly the text `expected`.
pub fn text_is(value: &String, expected: &str) -> (same: bool)
    ensures
        same == (value@ == expected@),
{
    let wanted = expected.to_owned();
    *value == wanted
}

/// Whether `value` holds no text.
pub fn text_empty(value: &String) -> (empty: bool)
    ensures
        empty == (value@.len() == 0),
{
    value.as_str().is_empty()
}

/// Scan counters recorded with a measurement.
#[derive(Clone, Debug, Default, PartialEq, Eq)]
pub struct CacheDiagnosticsReceipt {
    pub requested_worker_count: usize,
    pub partition_count: usize,
    pub spawned_workers: usize,
    pub database_retained_bytes: usize,
    pub cache_budget: usize,
    pub cache_states: usize,
    pub cache_hits: u64,
    pub cache_misses: u64,
    pub fallback_transitions: u64,
    pub cache_table_bytes: usize,
    pub assertion_bypasses: u64,
    pub prefilter_path: String,
    pub prefilter_bypass: String,
    pub prefilter_retained_bytes: usize,
    pub prefilter_candidate_bytes: usize,
    pub prefilter_admissions: u64,
    pub prefilter_candidate_starts: usize,
    pub prefilter_starts_scanned: usize,
    pub prefilter_starts_skipped: usize,
    pub buffered_events: usize,
    pub buffered_event_bytes: usize,
}

/// A field-by-field copy of `diagnostics`.
pub fn copy_diagnostics(diagnostics: &CacheDiagnosticsReceipt) -> (copy: CacheDiagnosticsReceipt)
    ensures
        copy == *diagnostics,
{
    CacheDiagnosticsReceipt {
        requested_worker_count: diagnostics.requested_worker_count,
        partition_count: diagnostics.partition_count,
        spawned_workers: diagnostics.spawned_workers,
        database_retained_bytes: diagnostics.database_retained_bytes,
        cache_budget: diagnostics.cache_budget,
        cache_states: diagnostics.cache_states,
        cache_hits: diagnostics.cache_hits,
        cache_misses: diagnostics.cache_misses,
        fallback_transitions: diagnostics.fallback_transitions,
        cache_table_bytes: diagnostics.cache_table_bytes,
        assertion_bypasses: diagnostics.assertion_bypasses,
        prefilter_path: diagnostics.prefilter_path.clone(),
        prefilter_bypass: diagnostics.prefilter_bypass.clone(),
        prefilter_retained_bytes: diagnostics.prefilter_retained_bytes,
        prefilter_candidate_bytes: diagnostics.prefilter_candidate_bytes,
        prefilter_admissions: diagnostics.prefilter_admissions,
        prefilter_candidate_starts: diagnostics.prefilter_candidate_starts,
        prefilter_starts_scanned: diagnostics.prefilter_starts_scanned,
        prefilter_starts_skipped: diagnostics.prefilter_starts_skipped,
        buffered_events: diagnostics.buffered_events,
        buffered_event_bytes: diagnostics.buffered_event_bytes,
    }
}

/// A copy of optional diagnostics.
pub fn copy_optional_diagnostics(diagnostics: &Option<CacheDiagnosticsReceipt>) -> (copy: Option<
    CacheDiagnosticsReceipt,
>)
    ensures
        copy == *diagnostics,
{
    match diagnostics {
        Some(value) => Some(copy_diagnostics(value)),
        None => None,
    }
}

/// A copy of an optional text.
pub fn copy_optional_text(text: &Option<String>) -> (copy: Option<String>)
    ensures
        copy == *text,
{
    match text {
        Some(value) => Some(value.clone()),
        None => None,
    }
}

/// One coarse literal tripwire measurement.
#[derive(Clone, Debug, PartialEq, Eq)]
pub struct TripwireReceipt {
    pub schema_version: u32,
    pub evidence_id: String,
    pub benchmark: String,
    pub claim: String,
    pub revision: String,
    pub runner: String,
    pub profile: String,
    pub pattern_count: usize,
    pub corpus_bytes: usize,
    pub event_count: usize,
    pub event_digest: String,
    pub warmup_iterations: u32,
    pub measured_iterations: u32,
    pub median_scan_ns: u128,
    pub correctness: String,
}

impl TripwireReceipt {
    /// The metadata names the tripwire campaign, a passing release run, an
    /// identified revision and runner, and a measured time.
    pub open spec fn valid_spec(&self) -> bool {
        &&& self.schema_version == 1
        &&& self.evidence_id@ == "C1"@
        &&& self.benchmark@ == "ascii-literal-tripwire-v1"@
        &&& self.claim@ == "coarse-severe-regression-signal-only"@
        &&& self.profile@ == "release"@
        &&& self.correctness@ == "pass"@
        &&& self.revision@.len() > 0
        &&& self.runner@.len() > 0
        &&& self.median_scan_ns > 0
    }

    /// Checks the receipt's metadata.
    pub fn validate(&self) -> (valid: bool)
        ensures
            valid == self.valid_spec(),
    {
        !(self.schema_version != 1 || !text_is(&self.evidence_id, "C1") || !text_is(
            &self.benchmark,
            "ascii-literal-tripwire-v1",
        ) || !text_is(&self.claim, "coarse-severe-regression-signal-only") || !text_is(
            &self.profile,
            "release",
        ) || !text_is(&self.correctness, "pass") || text_empty(&self.revision) || text_empty(
            &self.runner,
        ) || self.median_scan_ns == 0)
    }

    /// Both receipts measured the same fixture the same way.
    pub open spec fn same_fixture_spec(&self, other: &Self) -> bool {
        &&& self.pattern_count == other.pattern_count
        &&& self.corpus_bytes == other.corpus_bytes
        &&& self.event_count == other.event_count
        &&& self.event_digest@ == other.event_digest@
        &&& self.warmup_iterations == other.warmup_iterations
        &&& self.measured_iterations == other.measured_iterations
    }

    /// Compares the fixture identities of two receipts.
    pub fn same_fixture(&self, other: &Self) -> (same: bool)
        ensures
            same == self.same_fixture_spec(other),
    {
        self.pattern_count == other.pattern_count && self.corpus_bytes == other.corpus_bytes
            && self.event_count == other.event_count && self.event_digest == other.event_digest
            && self.warmup_iterations == other.warmup_iterations && self.measured_iterations
            == other.measured_iterations
    }
}

/// One state-cache campaign measurement.
#[derive(Clone, Debug, PartialEq, Eq)]
pub struct I6ScanReceipt {
    pub schema_version: u32,
    pub evidence_id: String,
    pub benchmark: String,
    pub claim: String,
    pub scenario: String,
    pub gate: String,
    pub revision: String,
    pub runner: String,
    pub profile: String,
    pub pattern_count: usize,
    pub corpus_bytes: usize,
    pub event_count: usize,
    pub event_digest: String,
    pub warmup_iterations: u32,
    pub measured_iterations: u32,
    pub median_compile_ns: u128,
    pub median_scan_ns: u128,
    pub cache_diagnostics: Option<CacheDiagnosticsReceipt>,
    pub correctness: String,
}

impl I6ScanReceipt {
    /// The metadata names the state-cache campaign and a passing, timed,
    /// identified release run.
    pub open spec fn valid_spec(&self) -> bool {
        &&& self.schema_version == 1
        &&& self.evidence_id@ == "I6-P1"@
        &&& self.benchmark@ == "state-cache-campaign-v1"@
        &&& self.claim@ == "optimization-admission"@
        &&& self.profile@ == "release"@
        &&& self.correctness@ == "pass"@
        &&& self.revision@.len() > 0
        &&& self.runner@.len() > 0
        &&& self.median_compile_ns > 0
        &&& self.median_scan_ns > 0
    }

    /// Checks the receipt's metadata.
    pub fn validate(&self) -> (valid: bool)
        ensures
            valid == self.valid_spec(),
    {
        !(self.schema_version != 1 || !text_is(&self.evidence_id, "I6-P1") || !text_is(
            &self.benchmark,
            "state-cache-campaign-v1",
        ) || !text_is(&self.claim, "optimization-admission") || !text_is(&self.profile, "release")
            || !text_is(&self.correctness, "pass") || text_empty(&self.revision) || text_empty(
            &self.runner,
        ) || self.median_compile_ns == 0 || self.median_scan_ns == 0)
    }

    /// Both receipts measured the same scenario and fixture the same way.
    pub open spec fn same_fixture_spec(&self, other: &Self) -> bool {
        &&& self.scenario@ == other.scenario@
        &&& self.gate@ == other.gate@
        &&& self.pattern_count == other.pattern_count
        &&& self.corpus_bytes == other.corpus_bytes
        &&& self.event_count == other.event_count
        &&& self.event_digest@ == other.event_digest@
        &&& self.warmup_iterations == other.warmup_iterations
        &&& self.measured_iterations == other.measured_iterations
    }

    /// Compares the fixture identities of two receipts.
    pub fn same_fixture(&self, other: &Self) -> (same: bool)
        ensures
            same == self.same_fixture_spec(other),
    {
        self.scenario == other.scenario && self.gate == other.gate && self.pattern_count
            == other.pattern_count && self.corpus_bytes == other.corpus_bytes && self.event_count
            == other.event_count && self.event_digest == other.event_digest && self.warmup_iterations
            == other.warmup_iterations && self.measured_iterations == other.measured_iterations
    }
}

/// One safe-prefilter campaign measurement.
#[derive(Clone, Debug, PartialEq, Eq)]
pub struct I7ScanReceipt {
    pub schema_version: u32,
    pub evidence_id: String,
    pub benchmark: String,
    pub claim: String,
    pub scenario: String,
    pub gate: String,
    pub expected_path: String,
    pub prefilter_mode: String,
    pub revision: String,
    pub runner: String,
    pub profile: String,
    pub pattern_count: usize,
    pub corpus_bytes: usize,
    pub input_units: usize,
    pub cache_scrub_bytes: usize,
    pub cache_scrub_digest: String,
    pub event_count: usize,
    pub event_digest: String,
    pub warmup_iterations: u32,
    pub measured_iterations: u32,
    pub median_compile_ns: u128,
    pub median_scan_ns: u128,
    pub cache_diagnostics: CacheDiagnosticsReceipt,
    pub correctness: String,
}

/// Whether recorded diagnostics show the path a scenario expects.
pub open spec fn expected_path_spec(expected: Seq<char>, path: Seq<char>, bypass: Seq<char>) -> bool {
    if expected == "literal-prefilter"@ {
        path == "literal-prefilter"@ && bypass == "none"@
    } else if expected == "literal-or-density-bypass"@ {
        path == "literal-prefilter"@ || (path == "start-table"@ && bypass == "dense-sample"@)
    } else if expected == "assertion-bypass"@ {
        path == "all-starts"@ && bypass == "assertions"@
    } else if expected == "start-table"@ {
        path == "start-table"@
    } else if expected == "below-size-bypass"@ {
        path == "start-table"@ && bypass == "input-size"@
    } else {
        false
    }
}

impl I7ScanReceipt {
    /// The metadata names the safe-prefilter campaign and a complete,
    /// passing, identified release run.
    pub open spec fn valid_spec(&self) -> bool {
        &&& self.schema_version == 1
        &&& self.evidence_id@ == "I7-P1"@
        &&& self.benchmark@ == "safe-prefilter-campaign-v1"@
        &&& self.claim@ == "optimization-admission"@
        &&& self.profile@ == "release"@
        &&& self.correctness@ == "pass"@
        &&& self.revision@.len() > 0
        &&& self.runner@.len() > 0
        &&& self.pattern_count > 0
        &&& self.corpus_bytes > 0
        &&& self.input_units > 0
        &&& self.cache_scrub_bytes > 0
        &&& self.cache_scrub_digest@.len() > 0
        &&& self.warmup_iterations >= I7_WARMUP_ITERATIONS
        &&& self.measured_iterations >= I7_MEASURED_ITERATIONS
        &&& self.median_compile_ns > 0
        &&& self.median_scan_ns > 0
    }

    /// Checks the receipt's metadata.
    pub fn validate(&self) -> (valid: bool)
        ensures
            valid == self.valid_spec(),
    {
        !(self.schema_version != 1 || !text_is(&self.evidence_id, "I7-P1") || !text_is(
            &self.benchmark,
            "safe-prefilter-campaign-v1",
        ) || !text_is(&self.claim, "optimization-admission") || !text_is(&self.profile, "release")
            || !text_is(&self.correctness, "pass") || text_empty(&self.revision) || text_empty(
            &self.runner,
        ) || self.pattern_count == 0 || self.corpus_bytes == 0 || self.input_units == 0
            || self.cache_scrub_bytes == 0 || text_empty(&self.cache_scrub_digest)
            || self.warmup_iterations < I7_WARMUP_ITERATIONS || self.measured_iterations
            < I7_MEASURED_ITERATIONS || self.median_compile_ns == 0 || self.median_scan_ns == 0)
    }

    /// The recorded diagnostics show the path the scenario expects.
    pub open spec fn path_valid_spec(&self) -> bool {
        expected_path_spec(
            self.expected_path@,
            self.cache_diagnostics.prefilter_path@,
            self.cache_diagnostics.prefilter_bypass@,
        )
    }

    /// Checks the recorded path against the expected one.
    pub fn validate_path(&self) -> (valid: bool)
        ensures
            valid == self.path_valid_spec(),
    {
        let path = &self.cache_diagnostics.prefilter_path;
        let bypass = &self.cache_diagnostics.prefilter_bypass;
        if text_is(&self.expected_path, "literal-prefilter") {
            text_is(path, "literal-prefilter") && text_is(bypass, "none")
        } else if text_is(&self.expected_path, "literal-or-density-bypass") {
            text_is(path, "literal-prefilter") || (text_is(path, "start-table") && text_is(
                bypass,
                "dense-sample",
            ))
        } else if text_is(&self.expected_path, "assertion-bypass") {
            text_is(path, "all-starts") && text_is(bypass, "assertions")
        } else if text_is(&self.expected_path, "start-table") {
            text_is(path, "start-table")
        } else if text_is(&self.expected_path, "below-size-bypass") {
            text_is(path, "start-table") && text_is(bypass, "input-size")
        } else {
            false
        }
    }

    /// Both receipts measured the same scenario and fixture the same way.
    pub open spec fn same_fixture_spec(&self, other: &Self) -> bool {
        &&& self.scenario@ == other.scenario@
        &&& self.gate@ == other.gate@
        &&& self.expected_path@ == other.expected_path@
        &&& self.pattern_count == other.pattern_count
        &&& self.corpus_bytes == other.corpus_bytes
        &&& self.input_units == other.input_units
        &&& self.cache_scrub_bytes == other.cache_scrub_bytes
        &&& self.cache_scrub_digest@ == other.cache_scrub_digest@
        &&& self.event_count == other.event_count
        &&& self.event_digest@ == other.event_digest@
        &&& self.warmup_iterations == other.warmup_iterations
        &&& self.measured_iterations == other.measured_iterations
    }

    /// Compares the fixture identities of two receipts.
    pub fn same_fixture(&self, other: &Self) -> (same: bool)
        ensures
            same == self.same_fixture_spec(other),
    {
        self.scenario == other.scenario && self.gate == other.gate && self.expected_path
            == other.expected_path && self.pattern_count == other.pattern_count && self.corpus_bytes
            == other.corpus_bytes && self.input_units == other.input_units && self.cache_scrub_bytes
            == other.cache_scrub_bytes && self.cache_scrub_digest == other.cache_scrub_digest
            && self.event_count == other.event_count && self.event_digest == other.event_digest
            && self.warmup_iterations == other.warmup_iterations && self.measured_iterations
            == other.measured_iterations
    }
}

/// One large-corpus scale measurement.
#[derive(Clone, Debug, PartialEq, Eq)]
pub struct ScaleScanReceipt {
    pub schema_version: u32,
    pub evidence_id: String,
    pub benchmark: String,
    pub claim: String,
    pub revision: String,
    pub runner: String,
    pub measured_at_utc: Option<String>,
    pub profile: String,
    pub pattern_source: String,
    pub pattern_source_digest: String,
    pub corpus_source: String,
    pub corpus_source_digest: String,
    pub pattern_count: usize,
    pub worker_count: usize,
    pub corpus_bytes: usize,
    pub input_units: usize,
    pub cache_scrub_bytes: usize,
    pub cache_scrub_digest: String,
    pub event_count: usize,
    pub event_digest: String,
    pub warmup_iterations: u32,
    pub measured_iterations: u32,
    pub median_compile_ns: u128,
    pub median_scan_ns: u128,
    pub cache_diagnostics: Option<CacheDiagnosticsReceipt>,
    pub correctness: String,
}

impl ScaleScanReceipt {
    /// The metadata names the scale campaign and a passing, identified,
    /// timed release run.
    pub open spec fn valid_spec(&self) -> bool {
        &&& self.schema_version == 1
        &&& self.evidence_id@ == "I6-B1"@
        &&& self.benchmark@ == "wuthering-literal-scale-v1"@
        &&& self.claim@ == "exploratory-scale-and-cache-pressure-evidence"@
        &&& self.profile@ == "release"@
        &&& self.correctness@ == "pass"@
        &&& self.revision@.len() > 0
        &&& self.runner@.len() > 0
        &&& self.pattern_count > 0
        &&& self.worker_count > 0
        &&& self.corpus_bytes > 0
        &&& self.cache_scrub_bytes > 0
        &&& self.median_compile_ns > 0
        &&& self.median_scan_ns > 0
    }

    /// Checks the receipt's metadata.
    pub fn validate(&self) -> (valid: bool)
        ensures
            valid == self.valid_spec(),
    {
        !(self.schema_version != 1 || !text_is(&self.evidence_id, "I6-B1") || !text_is(
            &self.benchmark,
            "wuthering-literal-scale-v1",
        ) || !text_is(&self.claim, "exploratory-scale-and-cache-pressure-evidence") || !text_is(
            &self.profile,
            "release",
        ) || !text_is(&self.correctness, "pass") || text_empty(&self.revision) || text_empty(
            &self.runner,
        ) || self.pattern_count == 0 || self.worker_count == 0 || self.corpus_bytes == 0
            || self.cache_scrub_bytes == 0 || self.median_compile_ns == 0 || self.median_scan_ns
            == 0)
    }

    /// Both receipts measured the same sources and fixture the same way.
    pub open spec fn same_fixture_spec(&self, other: &Self) -> bool {
        &&& self.pattern_count == other.pattern_count
        &&& self.corpus_bytes == other.corpus_bytes
        &&& self.cache_scrub_bytes == other.cache_scrub_bytes
        &&& self.pattern_source_digest@ == other.pattern_source_digest@
        &&& self.corpus_source_digest@ == other.corpus_source_digest@
        &&& self.cache_scrub_digest@ == other.cache_scrub_digest@
        &&& self.event_count == other.event_count
        &&& self.event_digest@ == other.event_digest@
        &&& self.warmup_iterations == other.warmup_iterations
        &&& self.measured_iterations == other.measured_iterations
    }

    /// Compares the fixture identities of two receipts.
    pub fn same_fixture(&self, other: &Self) -> (same: bool)
        ensures
            same == self.same_fixture_spec(other),
    {
        self.pattern_count == other.pattern_count && self.corpus_bytes == other.corpus_bytes
            && self.cache_scrub_bytes == other.cache_scrub_bytes && self.pattern_source_digest
            == other.pattern_source_digest && self.corpus_source_digest == other.corpus_source_digest
            && self.cache_scrub_digest == other.cache_scrub_digest && self.event_count
            == other.event_count && self.event_digest == other.event_digest && self.warmup_iterations
            == other.warmup_iterations && self.measured_iterations == other.measured_iterations
    }
}

} // verus!
