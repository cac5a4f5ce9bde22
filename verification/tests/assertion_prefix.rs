use rustmatch::experimental::assertion_prefix_v1::{
    AssertionPrefixMatcher, AssertionPrefixMatcherBuilder, BuildError, FallbackReason,
    ScanBackend, ScanError, ScanPolicy, StaticEligibility, StaticIneligibility,
};
use rustmatch::{Match, Matcher, MatcherBuilder, PatternId, Utf16Text};

#[test]
fn build_rejects_each_static_ineligibility_class() -> Result<(), BuildError> {
    let mut assertion_free = AssertionPrefixMatcherBuilder::new();
    assertion_free.add(PatternId::new(1), "word0001")?;
    let mut too_small = AssertionPrefixMatcherBuilder::new();
    too_small.add(PatternId::new(1), r"\bword0001\b")?;
    let mut mismatched = AssertionPrefixMatcherBuilder::new();
    add_word_patterns(&mut mismatched)?;
    mismatched.add(PatternId::new(257), r"\bother0256\b")?;

    let no_assertions = assertion_free.build();
    let below_minimum = too_small.build();
    let no_shared_prefix = mismatched.build();

    assert!(matches!(
        no_assertions,
        Err(BuildError::Ineligible(
            StaticIneligibility::NoAssertionBearingPatterns
        ))
    ));
    assert!(matches!(
        below_minimum,
        Err(BuildError::Ineligible(
            StaticIneligibility::TooFewAssertionBearingPatterns {
                found: 1,
                minimum: 256
            }
        ))
    ));
    assert!(matches!(
        no_shared_prefix,
        Err(BuildError::Ineligible(
            StaticIneligibility::NoSharedFiveUnitAsciiPrefix
        ))
    ));
    Ok(())
}

#[test]
fn sparse_boundary_scan_activates_and_reports_exact_events() -> Result<(), BuildError> {
    let matcher = word_matcher()?;
    let mut units = vec![u16::from(b' '); 1024 * 1024];
    place_ascii(&mut units, 4_096, "word0001");
    place_ascii(&mut units, 524_288, "word0042");
    units[899_999] = 0xd800;
    place_ascii(&mut units, 900_000, "word0255");
    units[900_008] = 0xdc00;
    let input = Utf16Text::from_units(units);
    let mut events = Vec::new();

    let report = matcher
        .scan_with_policy(&input, ScanPolicy::RequireSpecialized, |matched| {
            events.push(event(matched));
        })
        .unwrap_or_else(|error| panic!("eligible scan failed: {error:?}"));

    events.sort_unstable();
    assert_eq!(
        events,
        [
            (2, 4_096, 4_104),
            (43, 524_288, 524_296),
            (256, 900_000, 900_008)
        ]
    );
    assert_eq!(report.requested_policy(), ScanPolicy::RequireSpecialized);
    assert_eq!(report.activated_backend(), ScanBackend::AssertionPrefixV1);
    assert!(report.specialized_backend_activated());
    assert_eq!(report.fallback_reason(), None);
    assert_eq!(report.static_eligibility().assertion_pattern_count(), 256);
    assert_eq!(report.static_eligibility().shared_ascii_prefix(), *b"word0");
    assert!(report.candidate_count() >= 3);
    assert!(report.candidate_bytes() > 0);
    Ok(())
}

#[test]
fn require_specialized_refuses_short_input_before_callbacks() -> Result<(), BuildError> {
    let matcher = word_matcher()?;
    let input = Utf16Text::from("word0001 word0042");
    let mut callback_count = 0;

    let result = matcher.scan_with_policy(&input, ScanPolicy::RequireSpecialized, |_| {
        callback_count += 1;
    });

    assert_eq!(callback_count, 0);
    assert_eq!(
        result,
        Err(ScanError::SpecializationUnavailable {
            reason: FallbackReason::InputTooShort {
                input_units: 17,
                minimum_input_units: 1024 * 1024,
            },
        })
    );
    Ok(())
}

#[test]
fn exact_fallback_matches_the_normal_matcher_and_reports_reason() -> Result<(), BuildError> {
    let experimental = word_matcher()?;
    let ordinary = ordinary_word_matcher()?;
    let input = Utf16Text::from("word0001 other word0042 word0255");
    let mut experimental_events = Vec::new();
    let mut ordinary_events = Vec::new();
    ordinary
        .scan(&input, |matched| ordinary_events.push(event(matched)))
        .map_err(BuildError::Matcher)?;

    let report = experimental
        .scan_with_policy(&input, ScanPolicy::AllowExactFallback, |matched| {
            experimental_events.push(event(matched));
        })
        .unwrap_or_else(|error| panic!("fallback scan failed: {error:?}"));

    experimental_events.sort_unstable();
    ordinary_events.sort_unstable();
    assert_eq!(experimental_events, ordinary_events);
    assert_eq!(
        report.activated_backend(),
        ScanBackend::GenericExactFallback
    );
    assert_eq!(
        report.fallback_reason(),
        Some(FallbackReason::InputTooShort {
            input_units: input.as_units().len(),
            minimum_input_units: 1024 * 1024,
        })
    );
    assert_eq!(report.candidate_count(), 0);
    assert_eq!(report.candidate_bytes(), 0);
    Ok(())
}

#[test]
fn dense_input_is_refused_before_generic_work_or_callbacks() -> Result<(), BuildError> {
    let mut builder = AssertionPrefixMatcherBuilder::new();
    for ordinal in 0..256_u32 {
        builder.add(PatternId::new(ordinal + 1), r"\baaaaa\b")?;
    }
    let matcher = builder.build()?;
    let input = Utf16Text::from_units(vec![u16::from(b'a'); 1024 * 1024]);
    let mut callback_count = 0;

    let result = matcher.scan_with_policy(&input, ScanPolicy::RequireSpecialized, |_| {
        callback_count += 1;
    });

    assert_eq!(callback_count, 0);
    assert_eq!(
        result,
        Err(ScanError::SpecializationUnavailable {
            reason: FallbackReason::CandidateSampleTooDense,
        })
    );
    Ok(())
}

fn word_matcher() -> Result<AssertionPrefixMatcher, BuildError> {
    let mut builder = AssertionPrefixMatcherBuilder::new();
    add_word_patterns(&mut builder)?;
    builder.build()
}

fn ordinary_word_matcher() -> Result<Matcher, BuildError> {
    let mut builder = MatcherBuilder::new();
    for ordinal in 0..256_u32 {
        builder.add(
            PatternId::new(ordinal + 1),
            &format!(r"\bword{ordinal:04}\b"),
        )?;
    }
    builder.build().map_err(BuildError::Matcher)
}

fn add_word_patterns(builder: &mut AssertionPrefixMatcherBuilder) -> Result<(), BuildError> {
    for ordinal in 0..256_u32 {
        builder.add(
            PatternId::new(ordinal + 1),
            &format!(r"\bword{ordinal:04}\b"),
        )?;
    }
    Ok(())
}

fn place_ascii(units: &mut [u16], start: usize, text: &str) {
    for (offset, symbol) in text.bytes().enumerate() {
        units[start + offset] = u16::from(symbol);
    }
}

fn event(matched: Match) -> (u32, u64, u64) {
    (
        matched.pattern_id().get(),
        matched.span().start(),
        matched.span().end(),
    )
}

#[test]
fn eligibility_reports_the_frozen_minimum_and_collected_events() -> Result<(), BuildError> {
    let matcher = word_matcher()?;
    let mut units = vec![u16::from(b' '); 1024 * 1024];
    place_ascii(&mut units, 10, "word0000");
    let input = Utf16Text::from_units(units);
    let (events, report) = matcher
        .collect_with_policy(&input, ScanPolicy::AllowExactFallback)
        .unwrap_or_else(|error| panic!("eligible scan failed: {error:?}"));
    assert_eq!(StaticEligibility::minimum_assertion_pattern_count(), 256);
    assert_eq!(matcher.static_eligibility().shared_ascii_prefix(), *b"word0");
    assert_eq!(events.iter().map(|matched| event(*matched)).collect::<Vec<_>>(), [(1, 10, 18)]);
    assert_eq!(report.candidate_count(), 1);
    assert_eq!(report.candidate_bytes(), 1024 * 1024 / 8);
    Ok(())
}
