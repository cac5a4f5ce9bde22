use rustmatch::evidence::gates::{Evidence, GateError, Role};
use rustmatch::evidence::receipts::{CacheDiagnosticsReceipt, ScaleScanReceipt};
use rustmatch::report::render_scale_report_html;

fn report_receipt(median_scan_ns: u128, revision: &str) -> ScaleScanReceipt {
    ScaleScanReceipt {
        schema_version: 1,
        evidence_id: "I6-B1".to_owned(),
        benchmark: "wuthering-literal-scale-v1".to_owned(),
        claim: "exploratory-scale-and-cache-pressure-evidence".to_owned(),
        revision: revision.to_owned(),
        runner: "runner".to_owned(),
        measured_at_utc: Some("2026-07-18T05:25:01Z".to_owned()),
        profile: "release".to_owned(),
        pattern_source: "patterns.txt".to_owned(),
        pattern_source_digest: "fnv1a64:patterns".to_owned(),
        corpus_source: "corpus.txt".to_owned(),
        corpus_source_digest: "fnv1a64:corpus".to_owned(),
        pattern_count: 5_000,
        worker_count: 1,
        corpus_bytes: 675_259,
        input_units: 675_259,
        cache_scrub_bytes: 64 * 1024 * 1024,
        cache_scrub_digest: "fnv1a64:scrub".to_owned(),
        event_count: 74_604,
        event_digest: "multiset64:receipt".to_owned(),
        warmup_iterations: 1,
        measured_iterations: 3,
        median_compile_ns: 5_000_000,
        median_scan_ns,
        cache_diagnostics: None,
        correctness: "pass".to_owned(),
    }
}

#[test]
fn scale_report_displays_measurement_timestamp() -> Result<(), GateError> {
    let mut later_receipt = report_receipt(60_000_000, "revision");
    later_receipt.measured_at_utc = Some("2026-07-18T05:26:02Z".to_owned());

    let html = render_scale_report_html(&[report_receipt(50_000_000, "revision"), later_receipt])?;

    assert!(html.contains("<th>Measured UTC</th>"));
    assert!(html.contains("2026-07-18T05:25:01Z"));
    assert!(html.contains(
        "<strong>Measurement window (UTC):</strong> 2026-07-18T05:25:01Z to \
         2026-07-18T05:26:02Z"
    ));
    Ok(())
}

#[test]
fn scale_report_rows_show_formatted_measurements() -> Result<(), GateError> {
    let html = render_scale_report_html(&[report_receipt(50_000_000, "r<1>")])?;

    assert!(html.contains(
        "<tr><td>r&lt;1&gt;</td><td>2026-07-18T05:25:01Z</td><td>runner</td><td>5000</td><td>1</td>\
         <td>n/a</td><td>n/a</td><td>n/a MiB</td><td>n/a MiB</td><td>n/a MiB</td><td>n/a MiB</td>\
         <td>n/a MiB</td><td>0.6 MiB</td><td>64.0 MiB</td><td>74604</td><td>n/a</td><td>n/a</td>\
         <td>n/a</td><td>n/a</td><td>5.00 ms</td><td>50.00 ms</td><td>12.87 MiB/s</td>\
         <td><span class=\"pass\">pass</span></td></tr>"
    ));
    assert!(html.contains("<strong>Measurement window (UTC):</strong> 2026-07-18T05:25:01Z</p>"));
    assert!(html.contains(
        "Pattern source: <code>patterns.txt</code> (fnv1a64:patterns)<br>Corpus source: \
         <code>corpus.txt</code> (fnv1a64:corpus)"
    ));
    Ok(())
}

#[test]
fn scale_report_rows_follow_corpus_pattern_and_worker_order() -> Result<(), GateError> {
    let mut large = report_receipt(50_000_000, "large");
    large.corpus_bytes = 2 * 1024 * 1024;
    let mut many_workers = report_receipt(50_000_000, "many-workers");
    many_workers.worker_count = 4;
    let mut few_patterns = report_receipt(50_000_000, "few-patterns");
    few_patterns.pattern_count = 10;
    let tied_first = report_receipt(50_000_000, "tied-first");
    let tied_second = report_receipt(50_000_000, "tied-second");
    let html = render_scale_report_html(&[
        large,
        many_workers,
        tied_first,
        few_patterns,
        tied_second,
    ])?;

    let position = |revision: &str| html.find(&format!("<tr><td>{revision}</td>")).unwrap_or(usize::MAX);
    let positions: Vec<usize> = ["few-patterns", "tied-first", "tied-second", "many-workers", "large"]
        .iter()
        .map(|revision| position(revision))
        .collect();
    assert!(positions.iter().all(|&at| at != usize::MAX));
    assert!(positions.windows(2).all(|pair| pair[0] < pair[1]));
    assert!(html.contains("<td>2.0 MiB</td>"));
    Ok(())
}

#[test]
fn scale_report_counts_receipts_without_timestamps_and_shows_diagnostics() -> Result<(), GateError> {
    let mut untimed = report_receipt(50_000_000, "untimed");
    untimed.measured_at_utc = None;
    let mut diagnosed = report_receipt(50_000_000, "diagnosed");
    diagnosed.cache_diagnostics = Some(CacheDiagnosticsReceipt {
        partition_count: 2,
        spawned_workers: 1,
        database_retained_bytes: 3 * 1024 * 1024,
        cache_states: 17,
        fallback_transitions: 4,
        prefilter_path: "start-table".to_owned(),
        prefilter_starts_scanned: 99,
        ..CacheDiagnosticsReceipt::default()
    });

    let html = render_scale_report_html(&[untimed, diagnosed])?;

    assert!(html.contains(
        "<strong>Measurement window (UTC):</strong> 2026-07-18T05:25:01Z (timestamps recorded \
         for 1 of 2 receipts)</p>"
    ));
    assert!(html.contains("<tr><td>untimed</td><td>not recorded</td>"));
    assert!(html.contains("<td>1</td><td>2</td><td>1</td><td>3.0 MiB</td><td>0.0 MiB</td>"));
    assert!(html.contains("<td>17</td><td>4</td><td>start-table</td><td>99</td>"));

    let mut none_timed = report_receipt(50_000_000, "none");
    none_timed.measured_at_utc = None;
    let html = render_scale_report_html(&[none_timed])?;
    assert!(html.contains("not recorded in retained receipts (timestamps recorded for 0 of 1 receipts)"));
    Ok(())
}

#[test]
fn scale_report_refuses_a_receipt_with_invalid_metadata() {
    let mut invalid = report_receipt(50_000_000, "revision");
    invalid.median_scan_ns = 0;

    let result = render_scale_report_html(&[report_receipt(50_000_000, "revision"), invalid]);

    assert_eq!(
        result,
        Err(GateError::InvalidMetadata { evidence: Evidence::WutheringTripwire, role: Role::Candidate })
    );
}
