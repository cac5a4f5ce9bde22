use rustmatch::api::MatcherBuilder;
use rustmatch::engine::{scan_with_stats, ScanStats, DEFAULT_STATE_CACHE_BUDGET};
use rustmatch::hir::Hir;
use rustmatch::nfa::{self, PatternDatabase};
use rustmatch::parser;
use rustmatch::prefilter::{
    ascii_triple_index, necessary_prefix, prefix_hash_index, prefix_key, CandidateBitmap, LiteralPrefilter, NecessaryLiteral, Prefilter,
    PrefilterBypass, PrefilterPath, MIN_LITERAL_INPUT_UNITS,
};
use rustmatch::{Error, PatternId, Utf16Text};

type TestEvent = (u32, u64, u64);
type TestScan = Result<(Vec<TestEvent>, ScanStats), Error>;

#[test]
fn necessary_prefix_is_structural_and_conservative() {
    let common_alternation = Hir::alternation(vec![literal("foobar"), literal("foobaz")]);
    let optional_prefix = Hir::sequence(vec![
        Hir::repeat(literal("foo"), 0, Some(1)),
        literal("bar"),
    ]);
    let repeated_prefix = Hir::repeat(literal("ab"), 2, Some(4));

    let common = necessary_prefix(&common_alternation);
    let optional = necessary_prefix(&optional_prefix);
    let repeated = necessary_prefix(&repeated_prefix);

    assert_eq!(common, utf16("fooba"));
    assert!(optional.is_empty());
    assert_eq!(repeated, utf16("abab"));
}

#[test]
fn literal_prefilter_retains_overlapping_prefix_candidates_and_pattern_mapping() {
    let hints = vec![hint(0, "her"), hint(1, "sher")];
    let filter = LiteralPrefilter::compile(&hints);
    let input = utf16("ushers");
    let mut candidates = CandidateBitmap::new(input.len());
    let mut admissions = 0;

    filter.scan_starts(&input, 0, input.len(), &mut candidates, &mut admissions);

    assert_eq!(candidates.positions(), vec![1, 2]);
    assert_eq!(admissions, 2);
    assert_eq!(filter.patterns_for_prefix(&utf16("her")), vec![0]);
    assert_eq!(filter.patterns_for_prefix(&utf16("she")), vec![1]);
}

#[test]
fn start_table_rejects_impossible_ascii_pairs_conservatively() -> Result<(), Error> {
    let patterns = vec![
        parser::parse(PatternId::new(1), "ab")?,
        parser::parse(PatternId::new(2), "cd")?,
    ];
    let database = nfa::compile(&patterns)?;
    let prefilter = Prefilter::compile(&patterns, &database);
    assert!(prefilter.has_start_table(), "assertion-free table");

    assert!(prefilter.table_allows(&utf16("ab"), 0));
    assert!(prefilter.table_allows(&utf16("cd"), 0));
    assert!(!prefilter.table_allows(&utf16("ax"), 0));
    assert!(!prefilter.table_allows(&utf16("z"), 0));
    assert!(prefilter.table_allows(&utf16("a"), 0));
    Ok(())
}

#[test]
fn assertion_pattern_sets_bypass_every_prefilter_layer() -> Result<(), Error> {
    let patterns = vec![parser::parse(PatternId::new(1), "^needle")?];
    let database = nfa::compile(&patterns)?;
    let prefilter = Prefilter::compile(&patterns, &database);

    let plan = prefilter.plan(&utf16("needle"), true, true);

    assert_eq!(plan.path(), PrefilterPath::AllStarts);
    assert_eq!(plan.bypass(), PrefilterBypass::Assertions);
    Ok(())
}

#[test]
fn dense_sample_bypasses_the_full_literal_filter() -> Result<(), Error> {
    let mut patterns = Vec::new();
    for ordinal in 0..256_u32 {
        patterns.push(parser::parse(PatternId::new(ordinal), "aaa")?);
    }
    let database = nfa::compile(&patterns)?;
    let prefilter = Prefilter::compile(&patterns, &database);
    let input = vec![u16::from(b'a'); 1024 * 1024];

    let plan = prefilter.plan(&input, true, true);

    assert_eq!(plan.path(), PrefilterPath::StartTable);
    assert_eq!(plan.bypass(), PrefilterBypass::DenseSample);
    Ok(())
}

#[test]
fn nullable_patterns_preserve_every_consuming_match() -> Result<(), Error> {
    let patterns = vec![parser::parse(PatternId::new(1), "a*")?];
    let database = nfa::compile(&patterns)?;
    let prefilter = Prefilter::compile(&patterns, &database);
    let input = Utf16Text::from("baa");

    let (accelerated, diagnostics) = scan_events(&database, &prefilter, &input, true, true)?;
    let (baseline, _) = scan_events(&database, &prefilter, &input, false, false)?;

    assert_eq!(accelerated, baseline);
    assert_eq!(accelerated, vec![(1, 1, 3), (1, 2, 3)]);
    assert_eq!(diagnostics.prefilter_path, PrefilterPath::StartTable);
    assert_eq!(diagnostics.prefilter_bypass, PrefilterBypass::PatternCount);
    Ok(())
}

#[test]
fn full_literal_filter_preserves_mixed_pattern_semantics() -> Result<(), Error> {
    let sources = literal_filter_pattern_sources();
    let patterns = sources
        .iter()
        .enumerate()
        .map(|(ordinal, source)| {
            parser::parse(
                PatternId::new(u32::try_from(ordinal).expect("fixture ordinal fits u32")),
                source,
            )
        })
        .collect::<Result<Vec<_>, _>>()?;
    let database = nfa::compile(&patterns)?;
    let prefilter = Prefilter::compile(&patterns, &database);
    let mut input = vec![u16::from(b'x'); MIN_LITERAL_INPUT_UNITS];
    place(&mut input, 0, "cat");
    place(&mut input, 100, "dogs");
    place(&mut input, 200, "horse");
    place(&mut input, 300, "foobar");
    place(&mut input, 400, "prefixabababab");
    place(&mut input, 500, "startend");
    place(&mut input, 600, "åpen");
    place(&mut input, 700, "needle42");
    place(&mut input, 800, "token0255");
    let final_start = input.len() - "horse".len();
    place(&mut input, final_start, "horse");
    let input = Utf16Text::from_units(input);

    let (accelerated, diagnostics) = scan_events(&database, &prefilter, &input, true, true)?;
    let (baseline, _) = scan_events(&database, &prefilter, &input, false, false)?;

    assert_eq!(accelerated, baseline);
    assert_eq!(diagnostics.prefilter_path, PrefilterPath::Literal);
    assert_eq!(diagnostics.prefilter_bypass, PrefilterBypass::NoBypass);
    assert!(diagnostics.prefilter_candidate_starts > 0);
    assert!(diagnostics.prefilter_starts_skipped > input.as_units().len() * 9 / 10);
    assert!(accelerated.contains(&(3, 300, 306)));
    assert!(accelerated.contains(&(4, 400, 414)));
    assert!(accelerated.contains(&(5, 500, 508)));
    assert!(accelerated.contains(&(6, 600, 604)));
    assert!(accelerated.contains(&(7, 700, 708)));
    assert!(accelerated.contains(&(
        2,
        u64::try_from(final_start).expect("fixture position fits u64"),
        u64::try_from(input.as_units().len()).expect("fixture length fits u64"),
    )));
    Ok(())
}

#[test]
fn unfilterable_pattern_sets_use_the_conservative_start_table() -> Result<(), Error> {
    let mut patterns = (0..255_u32)
        .map(|ordinal| parser::parse(PatternId::new(ordinal), &format!("literal{ordinal:04}")))
        .collect::<Result<Vec<_>, _>>()?;
    patterns.push(parser::parse(PatternId::new(255), "(?i)needle")?);
    let database = nfa::compile(&patterns)?;
    let prefilter = Prefilter::compile(&patterns, &database);
    let mut input = vec![u16::from(b'x'); MIN_LITERAL_INPUT_UNITS];
    place(&mut input, 64, "NEEDLE");
    place(&mut input, 128, "literal0254");
    let input = Utf16Text::from_units(input);

    let (accelerated, diagnostics) = scan_events(&database, &prefilter, &input, true, true)?;
    let (baseline, _) = scan_events(&database, &prefilter, &input, false, false)?;

    assert_eq!(accelerated, baseline);
    assert_eq!(diagnostics.prefilter_path, PrefilterPath::StartTable);
    assert_eq!(diagnostics.prefilter_bypass, PrefilterBypass::Unfilterable);
    assert!(diagnostics.prefilter_starts_skipped > input.as_units().len() * 9 / 10);
    assert!(accelerated.contains(&(255, 64, 70)));
    assert!(accelerated.contains(&(254, 128, 139)));
    Ok(())
}

#[test]
fn generated_filterable_sets_match_the_all_start_reference() -> Result<(), Error> {
    for round in 0..4_usize {
        let pairs = generated_pattern_pairs(round);
        let patterns = pairs
            .iter()
            .enumerate()
            .map(|(ordinal, (pattern, _))| {
                parser::parse(
                    PatternId::new(u32::try_from(ordinal).expect("generated ordinal fits u32")),
                    pattern,
                )
            })
            .collect::<Result<Vec<_>, _>>()?;
        let database = nfa::compile(&patterns)?;
        let prefilter = Prefilter::compile(&patterns, &database);
        let mut input = vec![u16::from(b'x'); MIN_LITERAL_INPUT_UNITS];
        for (ordinal, (_, matched_text)) in pairs.iter().take(16).enumerate() {
            let start = (ordinal + 1) * 32_768 + round * 257;
            place(&mut input, start, matched_text);
        }
        let input = Utf16Text::from_units(input);

        let (accelerated, diagnostics) = scan_events(&database, &prefilter, &input, true, true)?;
        let (baseline, _) = scan_events(&database, &prefilter, &input, false, false)?;

        assert_eq!(accelerated, baseline, "generated round {round}");
        assert_eq!(diagnostics.prefilter_path, PrefilterPath::Literal);
        assert!(diagnostics.prefilter_starts_skipped > input.as_units().len() * 9 / 10);
    }
    Ok(())
}

#[test]
fn hidden_disable_control_preserves_the_all_start_baseline() -> Result<(), Error> {
    let patterns = (0..256_u32)
        .map(|ordinal| parser::parse(PatternId::new(ordinal), &format!("needle{ordinal:04}")))
        .collect::<Result<Vec<_>, _>>()?;
    let database = nfa::compile(&patterns)?;
    let prefilter = Prefilter::compile(&patterns, &database);

    let plan = prefilter.plan(&vec![u16::from(b'x'); 1024 * 1024], false, true);

    assert_eq!(plan.path(), PrefilterPath::AllStarts);
    assert_eq!(plan.bypass(), PrefilterBypass::Disabled);
    Ok(())
}

#[test]
fn candidate_bitmap_iterates_in_start_order_without_duplicates() {
    let mut bitmap = CandidateBitmap::new(130);
    bitmap.insert(129);
    bitmap.insert(1);
    bitmap.insert(64);
    bitmap.insert(1);

    let starts = bitmap.positions();

    assert_eq!(starts, vec![1, 64, 129]);
    assert_eq!(bitmap.count(), 3);
}

#[test]
fn public_patterns_still_compile_without_exposing_prefilter_types() -> Result<(), Error> {
    let mut builder = MatcherBuilder::new();
    builder.add(PatternId::new(7), "needle")?;

    let matcher = builder.build()?;
    let mut spans = Vec::new();
    matcher.scan(&Utf16Text::from("a needle"), |event| {
        spans.push((event.span().start(), event.span().end()));
    })?;

    assert_eq!(spans, vec![(2, 8)]);
    Ok(())
}

#[test]
fn literal_triples_and_hashes_index_their_tables() {
    assert_eq!(ascii_triple_index(0, 0, 0), 0);
    assert_eq!(ascii_triple_index(1, 2, 3), (1 << 14) | (2 << 7) | 3);
    assert_eq!(prefix_key(0x61, 0x62, 0x63), (0x61 << 32) | (0x62 << 16) | 0x63);
    let first = prefix_hash_index(&utf16("abcd"), 524_288);
    assert!(first < 524_288);
    assert_eq!(first, prefix_hash_index(&utf16("abcd"), 524_288));
    assert!(prefix_hash_index(&utf16("abcde"), 1_048_576) < 1_048_576);
}

fn literal(value: &str) -> Hir {
    Hir::sequence(utf16(value).into_iter().map(Hir::Symbol).collect())
}

fn hint(ordinal: usize, value: &str) -> NecessaryLiteral {
    NecessaryLiteral {
        ordinal,
        offset: 0,
        units: utf16(value),
    }
}

fn literal_filter_pattern_sources() -> Vec<String> {
    let mut sources = vec![
        "cat".to_owned(),
        "dogs".to_owned(),
        "horse".to_owned(),
        "fooba(?:r|z)".to_owned(),
        "prefix(?:ab){2,4}".to_owned(),
        "start(?:xy)?end".to_owned(),
        "åpen".to_owned(),
        "needle[0-9]+".to_owned(),
    ];
    sources.extend((sources.len()..256).map(|ordinal| format!("token{ordinal:04}")));
    sources
}

fn generated_pattern_pairs(round: usize) -> Vec<(String, String)> {
    (0..256)
        .map(|ordinal| {
            let prefix = format!("g{round:02}{ordinal:04}");
            match (ordinal + round) % 4 {
                0 => (format!("{prefix}(?:ab|ac)"), format!("{prefix}ac")),
                1 => (format!("{prefix}x{{1,3}}z"), format!("{prefix}xxxz")),
                2 => (format!("{prefix}(?:uv)?w"), format!("{prefix}uvw")),
                _ => (format!("{prefix}[a-c]+q"), format!("{prefix}abcq")),
            }
        })
        .collect()
}

fn place(input: &mut [u16], start: usize, value: &str) {
    let units = utf16(value);
    input[start..start + units.len()].copy_from_slice(&units);
}

fn scan_events(
    database: &PatternDatabase,
    prefilter: &Prefilter,
    input: &Utf16Text,
    prefilter_enabled: bool,
    literal_prefilter_enabled: bool,
) -> TestScan {
    let mut events = Vec::new();
    let diagnostics = scan_with_stats(
        database,
        prefilter,
        input,
        DEFAULT_STATE_CACHE_BUDGET,
        prefilter_enabled,
        literal_prefilter_enabled,
        |matched| {
            events.push((
                matched.pattern_id().get(),
                matched.span().start(),
                matched.span().end(),
            ));
        },
    )?;
    Ok((events, diagnostics))
}

fn utf16(value: &str) -> Vec<u16> {
    value.encode_utf16().collect()
}

#[test]
fn literal_sets_scanned_through_the_literal_filter_match_their_occurrences() -> Result<(), Error> {
    let sources: Vec<String> = (0..300_u32).map(|ordinal| format!("tok{ordinal:04}")).collect();
    let mut builder = MatcherBuilder::new();
    for (ordinal, source) in sources.iter().enumerate() {
        builder.add(PatternId::new(ordinal as u32 + 1), source)?;
    }
    let matcher = builder.build()?;
    let mut input = vec![u16::from(b'x'); MIN_LITERAL_INPUT_UNITS];
    let placements = [(10, 7_usize), (5_000, 299), (77_777, 0), (500_000, 123), (MIN_LITERAL_INPUT_UNITS - 7, 42)];
    for &(start, ordinal) in &placements {
        place(&mut input, start, &sources[ordinal]);
    }
    let text = Utf16Text::from_units(input.clone());
    let mut actual = Vec::new();
    let diagnostics = matcher.scan_with_diagnostics(&text, |matched| {
        actual.push((matched.pattern_id().get(), matched.span().start(), matched.span().end()));
    })?;
    assert_eq!(diagnostics.prefilter_path(), "literal-prefilter");
    actual.sort_unstable();

    let mut expected = Vec::new();
    for start in 0..input.len() {
        if input[start] != u16::from(b't') {
            continue;
        }
        for (ordinal, source) in sources.iter().enumerate() {
            let units = utf16(source);
            if input[start..].starts_with(&units) {
                expected.push((ordinal as u32 + 1, start as u64, (start + units.len()) as u64));
            }
        }
    }
    expected.sort_unstable();
    assert_eq!(expected.len(), placements.len());
    assert_eq!(actual, expected);
    Ok(())
}
