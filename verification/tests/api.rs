use rustmatch::api::{allocate_cohort_partitions, cohort_cache_budget, Matcher, MatcherBuilder};
use rustmatch::cohort::CohortDiagnostics;
use rustmatch::{Error, PatternId, Utf16Text};

#[test]
fn partition_assignment_and_cache_budgets_are_balanced() -> Result<(), Error> {
    let mut builder = MatcherBuilder::new();
    builder.worker_count(3).state_cache_budget(8);
    for pattern_id in 1..=10 {
        builder.add(PatternId::new(pattern_id), &format!("p{pattern_id}"))?;
    }

    let matcher = builder.build()?;
    let pattern_counts = matcher
        .partitions()
        .iter()
        .map(|partition| partition.database().pattern_count())
        .collect::<Vec<_>>();
    let cache_budgets = matcher
        .partitions()
        .iter()
        .map(|partition| partition.state_cache_budget())
        .collect::<Vec<_>>();

    assert_eq!(pattern_counts, [4, 3, 3]);
    assert_eq!(cache_budgets, [3, 3, 2]);
    Ok(())
}

#[test]
fn oversubscribed_request_is_bounded_by_pattern_count() -> Result<(), Error> {
    let mut builder = MatcherBuilder::new();
    builder.worker_count(1_000);
    builder.add(PatternId::new(1), "one")?;
    builder.add(PatternId::new(2), "two")?;

    let matcher = builder.build()?;

    assert_eq!(matcher.requested_worker_count(), 1_000);
    assert_eq!(matcher.partitions().len(), 2);
    Ok(())
}

#[test]
fn shared_parallel_candidates_match_the_private_path() -> Result<(), Error> {
    let single = literal_test_matcher(1)?;
    let parallel = literal_test_matcher(2)?;
    let mut units = vec![u16::from(b'x'); 1024 * 1024];
    place(&mut units, 128, "left0255needle");
    place(&mut units, 65_664, "right0511needle");
    place(&mut units, 131_200, "left9999near-miss");
    let input = Utf16Text::from_units(units);

    let single_events = collect_events(&single, &input)?;
    let parallel_events = collect_events(&parallel, &input)?;

    assert_eq!(parallel_events, single_events);
    assert_eq!(parallel_events, [(255, 128, 142), (511, 65_664, 65_679)]);
    Ok(())
}

#[test]
fn cohort_diagnostics_are_stable_across_worker_partitioning() -> Result<(), Error> {
    let (single_diagnostics, single) = cohort_test_matcher(1)?;
    let (parallel_diagnostics, parallel) = cohort_test_matcher(4)?;
    let input = Utf16Text::from("abc\ncat far");

    let single_events = collect_events(&single, &input)?;
    let parallel_events = collect_events(&parallel, &input)?;

    assert_eq!(single_diagnostics, parallel_diagnostics);
    assert_eq!(parallel_events, single_events);
    assert_eq!(
        single_diagnostics.assertion_free_pattern_ids(),
        [PatternId::new(10), PatternId::new(30)]
    );
    assert_eq!(
        single_diagnostics.assertion_bearing_pattern_ids(),
        [PatternId::new(20), PatternId::new(40)]
    );
    Ok(())
}

#[test]
fn cohort_partition_allocation_is_bounded_balanced_and_deterministic() {
    assert_eq!(allocate_cohort_partitions([8, 2], 1), [1, 1]);
    assert_eq!(allocate_cohort_partitions([8, 2], 4), [3, 1]);
    assert_eq!(allocate_cohort_partitions([8, 2], 8), [6, 2]);
    assert_eq!(allocate_cohort_partitions([1, 9], 4), [1, 3]);
    assert_eq!(allocate_cohort_partitions([4, 4], 99), [4, 4]);
}

#[test]
fn mixed_cohorts_preserve_global_ids_and_total_resource_budgets() -> Result<(), Error> {
    let matcher = mixed_cohort_test_matcher(4, 9, true)?;

    let layout = matcher.cohort_execution_diagnostics();
    let assertion_free_ids = matcher.partitions()[..2]
        .iter()
        .flat_map(|partition| {
            (0..partition.database().pattern_count())
                .map(|ordinal| partition.database().pattern_id(ordinal).get())
        })
        .collect::<Vec<_>>();
    let assertion_bearing_ids = matcher.partitions()[2..]
        .iter()
        .flat_map(|partition| {
            (0..partition.database().pattern_count())
                .map(|ordinal| partition.database().pattern_id(ordinal).get())
        })
        .collect::<Vec<_>>();

    assert!(layout.enabled());
    assert_eq!(layout.cohort_count(), 2);
    assert_eq!(layout.assertion_free_pattern_count(), 4);
    assert_eq!(layout.assertion_bearing_pattern_count(), 4);
    assert_eq!(layout.assertion_free_partition_count(), 2);
    assert_eq!(layout.assertion_bearing_partition_count(), 2);
    assert_eq!(layout.total_partition_count(), 4);
    assert_eq!(layout.total_cache_budget(), 9);
    assert!(layout.assertion_free_retained_bytes() > 0);
    assert!(layout.assertion_bearing_retained_bytes() > 0);
    assert_eq!(layout.spawned_workers(), 3);
    assert!(layout.buffers_before_delivery());
    assert_eq!(assertion_free_ids, [10, 30, 50, 70]);
    assert_eq!(assertion_bearing_ids, [20, 40, 60, 80]);
    assert!(
        matcher.partitions()[..2]
            .iter()
            .all(|partition| !partition.database().uses_assertions())
    );
    assert!(
        matcher.partitions()[2..]
            .iter()
            .all(|partition| partition.database().uses_assertions())
    );
    assert_eq!(
        matcher
            .partitions()
            .iter()
            .map(|partition| partition.state_cache_budget())
            .collect::<Vec<_>>(),
        [3, 2, 2, 2]
    );
    Ok(())
}

#[test]
fn one_cohort_keeps_the_direct_unbuffered_scan_path() -> Result<(), Error> {
    let mut assertion_free_builder = MatcherBuilder::new();
    assertion_free_builder.cohort_compilation_enabled(true);
    assertion_free_builder.add(PatternId::new(1), "abc")?;
    let assertion_free = assertion_free_builder.build()?;
    let mut assertion_bearing_builder = MatcherBuilder::new();
    assertion_bearing_builder.cohort_compilation_enabled(true);
    assertion_bearing_builder.add(PatternId::new(2), "^abc$")?;
    let assertion_bearing = assertion_bearing_builder.build()?;
    let input = Utf16Text::from("abc");

    let free_scan = assertion_free.scan_with_diagnostics(&input, |_| {})?;
    let bearing_scan = assertion_bearing.scan_with_diagnostics(&input, |_| {})?;
    let free_layout = assertion_free.cohort_execution_diagnostics();
    let bearing_layout = assertion_bearing.cohort_execution_diagnostics();

    assert_eq!(free_layout.cohort_count(), 1);
    assert_eq!(free_layout.assertion_free_pattern_count(), 1);
    assert_eq!(free_layout.assertion_bearing_pattern_count(), 0);
    assert_eq!(bearing_layout.cohort_count(), 1);
    assert_eq!(bearing_layout.assertion_free_pattern_count(), 0);
    assert_eq!(bearing_layout.assertion_bearing_pattern_count(), 1);
    assert!(free_layout.assertion_free_retained_bytes() > 0);
    assert_eq!(free_layout.assertion_bearing_retained_bytes(), 0);
    assert_eq!(bearing_layout.assertion_free_retained_bytes(), 0);
    assert!(bearing_layout.assertion_bearing_retained_bytes() > 0);
    assert!(!free_layout.buffers_before_delivery());
    assert!(!bearing_layout.buffers_before_delivery());
    assert_eq!(free_scan.buffered_events(), 0);
    assert_eq!(bearing_scan.buffered_events(), 0);
    Ok(())
}

#[test]
fn mixed_cohorts_match_the_unsplit_multiset_across_worker_counts() -> Result<(), Error> {
    let input = mixed_cohort_input();

    for worker_count in [1, 2, 4, 8] {
        let baseline = mixed_cohort_test_matcher(worker_count, 17, false)?;
        let cohort = mixed_cohort_test_matcher(worker_count, 17, true)?;
        let expected = collect_events(&baseline, &input)?;
        let first = collect_events(&cohort, &input)?;
        let second = collect_events(&cohort, &input)?;
        let mut diagnostic_events = Vec::new();
        let scan_diagnostics = cohort.scan_with_diagnostics(&input, |matched| {
            diagnostic_events.push((
                matched.pattern_id().get(),
                matched.span().start(),
                matched.span().end(),
            ));
        })?;
        diagnostic_events.sort_unstable();

        assert_eq!(first, expected, "worker count {worker_count}");
        assert_eq!(second, expected, "worker count {worker_count}");
        assert_eq!(diagnostic_events, expected, "worker count {worker_count}");
        assert_eq!(scan_diagnostics.buffered_events(), expected.len());
        assert_eq!(scan_diagnostics.cache_budget(), 17);
        let layout = cohort.cohort_execution_diagnostics();
        assert_eq!(layout.total_cache_budget(), 17);
        if worker_count == 1 {
            assert_eq!(layout.total_partition_count(), 2);
            assert_eq!(layout.spawned_workers(), 0);
        }
    }
    Ok(())
}

#[test]
fn sequential_partition_scan_reports_every_partition_in_order() -> Result<(), Error> {
    let matcher = mixed_cohort_test_matcher(4, 17, true)?;
    let input = mixed_cohort_input();
    let (events, stats) = matcher.scan_partitions(&input);
    let mut sorted = events
        .iter()
        .map(|matched| (matched.pattern_id().get(), matched.span().start(), matched.span().end()))
        .collect::<Vec<_>>();
    sorted.sort_unstable();
    assert_eq!(sorted, collect_events(&matcher, &input)?);
    assert_eq!(matcher.spawned_worker_count(), 3);
    assert!(stats.prefilter_starts_scanned > 0);
    Ok(())
}

#[test]
fn cohort_budgets_split_the_total_without_loss() {
    let shares = (0..4)
        .map(|index| cohort_cache_budget(9, 4, index, 1))
        .collect::<Vec<_>>();
    assert_eq!(shares, [3, 2, 2, 2]);
    assert_eq!(shares.iter().sum::<usize>(), 9);
    assert_eq!(cohort_cache_budget(9, 4, 0, 2), 5);
}

fn literal_test_matcher(worker_count: usize) -> Result<Matcher, Error> {
    let mut builder = MatcherBuilder::new();
    builder.worker_count(worker_count);
    for ordinal in 0..512_u32 {
        let prefix = if ordinal < 256 { "left" } else { "right" };
        builder.add(PatternId::new(ordinal), &format!("{prefix}{ordinal:04}needle"))?;
    }
    builder.build()
}

fn cohort_test_matcher(worker_count: usize) -> Result<(CohortDiagnostics, Matcher), Error> {
    let mut builder = MatcherBuilder::new();
    builder.worker_count(worker_count);
    builder.add(PatternId::new(10), "abc")?;
    builder.add(PatternId::new(20), "^abc$")?;
    builder.add(PatternId::new(30), "(?:far|foo)")?;
    builder.add(PatternId::new(40), r"\bcat")?;
    let diagnostics = builder.cohort_diagnostics();
    builder.build().map(|matcher| (diagnostics, matcher))
}

fn mixed_cohort_test_matcher(
    worker_count: usize,
    cache_budget: usize,
    cohort_enabled: bool,
) -> Result<Matcher, Error> {
    let mut builder = MatcherBuilder::new();
    builder
        .worker_count(worker_count)
        .state_cache_budget(cache_budget)
        .cohort_compilation_enabled(cohort_enabled);
    builder.add(PatternId::new(10), "abc")?;
    builder.add(PatternId::new(20), "^abc$")?;
    builder.add(PatternId::new(30), "(?:far|foo)")?;
    builder.add(PatternId::new(40), r"\bcat")?;
    builder.add(PatternId::new(50), "abc")?;
    builder.add(PatternId::new(60), "foo$")?;
    builder.add(PatternId::new(70), "a+")?;
    builder.add(PatternId::new(80), r"far\B")?;
    builder.build()
}

fn mixed_cohort_input() -> Utf16Text {
    Utf16Text::from("abc\ncat far foo\naaa\nabc")
}

fn collect_events(matcher: &Matcher, input: &Utf16Text) -> Result<Vec<(u32, u64, u64)>, Error> {
    let mut events = Vec::new();
    matcher.scan(input, |matched| {
        events.push((
            matched.pattern_id().get(),
            matched.span().start(),
            matched.span().end(),
        ));
    })?;
    events.sort_unstable();
    Ok(events)
}

fn place(input: &mut [u16], start: usize, text: &str) {
    let encoded = text.encode_utf16().collect::<Vec<_>>();
    input[start..start + encoded.len()].copy_from_slice(&encoded);
}

#[test]
fn diagnostics_count_the_starts_every_partition_visits() -> Result<(), Error> {
    let mut builder = MatcherBuilder::new();
    builder.worker_count(2).prefilter_enabled(false);
    builder.add(PatternId::new(1), "ab")?;
    builder.add(PatternId::new(2), "ba")?;
    let matcher = builder.build()?;
    assert_eq!(matcher.partitions().len(), 2);
    let diagnostics = matcher.scan_with_diagnostics(&Utf16Text::from("xabab"), |_| {})?;
    assert_eq!(diagnostics.prefilter_starts_scanned(), 10);

    let mut filtered = MatcherBuilder::new();
    filtered.worker_count(2);
    filtered.add(PatternId::new(1), "ab")?;
    filtered.add(PatternId::new(2), "ba")?;
    let matcher = filtered.build()?;
    let diagnostics = matcher.scan_with_diagnostics(&Utf16Text::from("xabab"), |_| {})?;
    assert_eq!(diagnostics.prefilter_path(), "start-table");
    assert_eq!(diagnostics.prefilter_starts_scanned(), 4);
    Ok(())
}

#[test]
fn case_folded_literals_are_reported_in_any_case() -> Result<(), Error> {
    let mut builder = MatcherBuilder::new();
    builder.add(PatternId::new(1), "(?i)cat")?;
    builder.add_with_flags(PatternId::new(2), "dog", rustmatch::PatternFlags::case_insensitive())?;
    let matcher = builder.build()?;
    let mut events = Vec::new();
    matcher.scan(&Utf16Text::from("xCaT cat DoG"), |matched| {
        events.push((matched.pattern_id().get(), matched.span().start(), matched.span().end()));
    })?;
    events.sort_unstable();
    assert_eq!(events, vec![(1, 1, 4), (1, 5, 8), (2, 9, 12)]);
    Ok(())
}
