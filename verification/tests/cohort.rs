use rustmatch::cohort::CohortDiagnostics;
use rustmatch::parser;
use rustmatch::PatternId;

#[test]
fn classifier_sorts_cohorts_stably_and_records_conservative_facts() {
    // Prepare
    let sources = [
        (1, "abc"),
        (2, "^abc$"),
        (3, r"\bcat\B"),
        (4, "[a-z]+"),
        (5, "é"),
        (6, "(?:ab){2,4}"),
        (7, "(?:foo|far)"),
    ];
    let patterns = sources
        .iter()
        .map(|&(id, source)| parser::parse(PatternId::new(id), source))
        .collect::<Result<Vec<_>, _>>()
        .expect("test patterns parse");

    // Test
    let diagnostics = CohortDiagnostics::classify(&patterns);
    let facts = diagnostics.patterns();

    // Assert
    assert_eq!(
        diagnostics.assertion_free_pattern_ids(),
        [
            PatternId::new(1),
            PatternId::new(4),
            PatternId::new(5),
            PatternId::new(6),
            PatternId::new(7),
        ]
    );
    assert_eq!(
        diagnostics.assertion_bearing_pattern_ids(),
        [PatternId::new(2), PatternId::new(3)]
    );
    assert_eq!(diagnostics.cohort_count(), 2);
    assert_eq!(facts[0].registration_ordinal(), 0);
    assert_eq!(facts[0].cohort(), "assertion-free");
    assert_eq!(facts[0].minimum_consumed(), Some(3));
    assert_eq!(facts[0].maximum_consumed(), Some(3));
    assert_eq!(facts[0].proven_exact_literal_units(), Some(3));
    assert_eq!(facts[0].necessary_prefix_units(), 3);
    assert!(facts[0].has_filterable_prefix());
    assert!(facts[0].is_ascii_only());
    assert!(!facts[0].nullable());

    assert_eq!(facts[1].cohort(), "assertion-bearing");
    assert!(facts[1].uses_line_start());
    assert!(facts[1].uses_line_end());
    assert_eq!(facts[1].maximum_consumed(), Some(3));
    assert_eq!(facts[1].proven_exact_literal_units(), None);
    assert_eq!(facts[1].necessary_prefix_units(), 3);

    assert!(facts[2].uses_word_boundary());
    assert!(facts[2].uses_non_word_boundary());
    assert_eq!(facts[2].necessary_prefix_units(), 3);
    assert!(facts[3].has_unbounded_maximum());
    assert!(facts[3].is_ascii_only());
    assert!(!facts[4].is_ascii_only());
    assert_eq!(facts[5].minimum_consumed(), Some(4));
    assert_eq!(facts[5].maximum_consumed(), Some(8));
    assert_eq!(facts[5].necessary_prefix_units(), 4);
    assert_eq!(facts[5].proven_exact_literal_units(), None);
    assert_eq!(facts[6].necessary_prefix_units(), 1);
    assert!(!facts[6].has_filterable_prefix());
    assert!(facts.iter().all(|fact| fact.hir_nodes() > 0));
}

#[test]
fn classifier_keeps_equal_pattern_text_as_distinct_registrations() {
    // Prepare
    let patterns = [10, 20]
        .into_iter()
        .map(|id| parser::parse(PatternId::new(id), "same"))
        .collect::<Result<Vec<_>, _>>()
        .expect("test patterns parse");

    // Test
    let diagnostics = CohortDiagnostics::classify(&patterns);

    // Assert
    assert_eq!(
        diagnostics.assertion_free_pattern_ids(),
        [PatternId::new(10), PatternId::new(20)]
    );
    assert_eq!(diagnostics.patterns()[0].pattern_id(), PatternId::new(10));
    assert_eq!(diagnostics.patterns()[1].pattern_id(), PatternId::new(20));
}

#[test]
fn exact_literal_proof_stops_conservatively_at_the_prefix_cap() {
    // Prepare
    let patterns = ["x".repeat(32), "x".repeat(33)]
        .iter()
        .enumerate()
        .map(|(ordinal, source)| {
            parser::parse(
                PatternId::new(u32::try_from(ordinal).expect("test ordinal")),
                source,
            )
        })
        .collect::<Result<Vec<_>, _>>()
        .expect("test patterns parse");

    // Test
    let diagnostics = CohortDiagnostics::classify(&patterns);

    // Assert
    assert_eq!(
        diagnostics.patterns()[0].proven_exact_literal_units(),
        Some(32)
    );
    assert_eq!(diagnostics.patterns()[1].proven_exact_literal_units(), None);
    assert_eq!(diagnostics.patterns()[1].necessary_prefix_units(), 32);
}
