use std::collections::BTreeSet;

use rustmatch::closure::{assertion_matches, extend_closure, is_ascii_word};
use rustmatch::engine::{scan, scan_with_stats, ScanStats, Scratch, DEFAULT_STATE_CACHE_BUDGET};
use rustmatch::hir::{Assertion, Hir};
use rustmatch::nfa::{self, PatternDatabase};
use rustmatch::parser::parse;
use rustmatch::prefilter::Prefilter;
use rustmatch::{Error, PatternId, Utf16Text};

type EventTuple = (u32, u64, u64);
type CollectedScan = (Vec<EventTuple>, ScanStats);

#[test]
fn default_cache_budget_bounds_direct_ascii_tables_to_four_mebibytes() {
    let bytes_per_state = 128 * std::mem::size_of::<u32>();

    let maximum_table_bytes = DEFAULT_STATE_CACHE_BUDGET * bytes_per_state;

    assert_eq!(maximum_table_bytes, 4 * 1024 * 1024);
}

#[test]
fn cache_visit_generation_wrap_clears_old_marks() -> Result<(), Error> {
    let patterns = [parse(PatternId::new(1), "alpha")?];
    let database = nfa::compile(&patterns)?;
    let mut scratch = Scratch::new(&database);
    scratch.marks.fill(u32::MAX);
    scratch.generation = u32::MAX;

    let generation = scratch.fresh_generation();

    assert_eq!(generation, 1);
    assert!(scratch.marks.iter().all(|&mark| mark == 0));
    Ok(())
}

#[test]
fn epsilon_closure_reaches_empty_branch_without_duplicate_states() -> Result<(), Error> {
    let patterns = [parse(PatternId::new(1), "|a")?];
    let database = nfa::compile(&patterns)?;
    let mut states = Vec::new();
    let mut marks = vec![0_u32; database.state_count()];
    let mut stack = Vec::new();

    extend_closure(
        &database,
        &[],
        None,
        database.root(),
        &mut states,
        &mut marks,
        1,
        &mut stack,
    );

    let unique: BTreeSet<_> = states.iter().map(|state| state.index()).collect();
    assert_eq!(states.len(), unique.len());
    assert!(
        states
            .iter()
            .any(|&state| !database.terminals_at(state).is_empty())
    );
    Ok(())
}

#[test]
fn assertion_context_exhausts_ascii_boundaries_and_line_edges() {
    let symbols = std::iter::once(None)
        .chain((0_u16..=127).map(Some))
        .collect::<Vec<_>>();

    for &left in &symbols {
        for &right in &symbols {
            let (input, position) = match (left, right) {
                (None, None) => (Vec::new(), 0),
                (None, Some(right)) => (vec![right], 0),
                (Some(left), None) => (vec![left], 1),
                (Some(left), Some(right)) => (vec![left, right], 1),
            };
            let expected = left.is_some_and(is_ascii_word) != right.is_some_and(is_ascii_word);
            assert_eq!(
                assertion_matches(Assertion::WordBoundary, &input, position, false),
                expected,
                "left={left:?}, right={right:?}"
            );
            assert_eq!(
                assertion_matches(Assertion::NonWordBoundary, &input, position, true),
                !expected,
                "left={left:?}, right={right:?}"
            );
        }
    }

    assert!(assertion_matches(Assertion::LineStart, &[0x61], 0, false));
    assert!(assertion_matches(Assertion::LineStart, &[0x0a, 0x61], 1, true));
    assert!(!assertion_matches(Assertion::LineStart, &[0x78, 0x61], 1, false));
    assert!(assertion_matches(Assertion::LineEnd, &[0x61], 1, true));
    assert!(assertion_matches(Assertion::LineEnd, &[0x61, 0x0a], 1, true));
    assert!(!assertion_matches(Assertion::LineEnd, &[0x0a], 0, false));
}

#[test]
fn cache_budgets_preserve_events_and_report_fallback_pressure() -> Result<(), Error> {
    let patterns = [
        parse(PatternId::new(1), "alpha")?,
        parse(PatternId::new(2), "a(lpha|lps)")?,
        parse(PatternId::new(3), "[a-z]+")?,
        parse(PatternId::new(4), "Ω+")?,
    ];
    let database = nfa::compile(&patterns)?;
    let input = Utf16Text::from("alpha alps ΩΩ alpha alps ΩΩ alpha");
    let (baseline, baseline_stats) = collect_with_budget(&database, &input, 0)?;

    let (one_state, one_state_stats) = collect_with_budget(&database, &input, 1)?;
    let (two_states, two_state_stats) = collect_with_budget(&database, &input, 2)?;
    let (full_cache, full_cache_stats) =
        collect_with_budget(&database, &input, DEFAULT_STATE_CACHE_BUDGET)?;

    assert_eq!(one_state, baseline);
    assert_eq!(two_states, baseline);
    assert_eq!(full_cache, baseline);
    assert_eq!(baseline_stats.cache_states, 0);
    assert_eq!(one_state_stats.cache_states, 1);
    assert!(one_state_stats.fallback_transitions > 0);
    assert!(two_state_stats.fallback_transitions > 0);
    assert!(full_cache_stats.cache_states > 2);
    assert!(full_cache_stats.cache_hits > 0);
    assert_eq!(full_cache_stats.fallback_transitions, 0);
    assert!(full_cache_stats.cache_table_bytes <= 4 * 1024 * 1024);
    Ok(())
}

#[test]
fn assertion_patterns_bypass_context_free_cache_keys() -> Result<(), Error> {
    let patterns = [parse(PatternId::new(1), "^a+")?];
    let database = nfa::compile(&patterns)?;
    let input = Utf16Text::from("aa\na");

    let (_, stats) = collect_with_budget(&database, &input, DEFAULT_STATE_CACHE_BUDGET)?;

    assert_eq!(stats.assertion_bypasses, 1);
    assert_eq!(stats.cache_states, 0);
    assert_eq!(stats.cache_hits, 0);
    assert_eq!(stats.cache_misses, 0);
    Ok(())
}

#[test]
fn bounded_generated_composition_agrees_with_tiny_hir_interpreter() -> Result<(), Error> {
    let patterns = generated_patterns();
    let inputs = generated_inputs();

    for (ordinal, source) in patterns.iter().enumerate() {
        let pattern_id = PatternId::new(u32::try_from(ordinal).expect("bounded pattern count"));
        let parsed = parse(pattern_id, source)?;
        let database = nfa::compile(std::slice::from_ref(&parsed))?;
        for input in &inputs {
            let text = Utf16Text::from(input.as_str());
            let mut actual = Vec::new();
            scan(
                &database,
                &Prefilter::empty(),
                &text,
                DEFAULT_STATE_CACHE_BUDGET,
                false,
                false,
                |event| actual.push((event.span().start(), event.span().end())),
            )?;
            let mut nfa = Vec::new();
            scan(&database, &Prefilter::empty(), &text, 0, false, false, |event| {
                nfa.push((event.span().start(), event.span().end()));
            })?;

            let mut expected = Vec::new();
            for start in 0..text.as_units().len() {
                let longest = interpret(parsed.expression(), text.as_units(), start)
                    .into_iter()
                    .filter(|&end| end > start)
                    .max();
                if let Some(end) = longest {
                    expected.push((
                        u64::try_from(start).expect("bounded input"),
                        u64::try_from(end).expect("bounded input"),
                    ));
                }
            }
            assert_eq!(actual, nfa, "cache/NFA pattern {source:?}, input {input:?}");
            assert_eq!(actual, expected, "pattern {source:?}, input {input:?}");
        }
    }
    Ok(())
}

#[test]
fn statistics_account_for_every_start_without_a_prefilter() -> Result<(), Error> {
    let patterns = [parse(PatternId::new(9), "ab")?];
    let database = nfa::compile(&patterns)?;
    let input = Utf16Text::from("xabab");
    let mut events = Vec::new();
    let stats = scan_with_stats(&database, &Prefilter::empty(), &input, 0, true, true, |event| {
        events.push((event.pattern_id().get(), event.span().start(), event.span().end()));
    })?;
    assert_eq!(events, vec![(9, 1, 3), (9, 3, 5)]);
    assert_eq!(stats.prefilter_starts_scanned, 5);
    assert_eq!(stats.prefilter_starts_skipped, 0);
    assert_eq!(stats.assertion_bypasses, 0);
    Ok(())
}

fn collect_with_budget(
    database: &PatternDatabase,
    input: &Utf16Text,
    budget: usize,
) -> Result<CollectedScan, Error> {
    let mut events = Vec::new();
    let stats = scan_with_stats(database, &Prefilter::empty(), input, budget, false, false, |event| {
        events.push((
            event.pattern_id().get(),
            event.span().start(),
            event.span().end(),
        ));
    })?;
    events.sort_unstable();
    Ok((events, stats))
}

fn interpret(expression: &Hir, input: &[u16], start: usize) -> BTreeSet<usize> {
    interpret_from(expression, input, (start, false))
        .into_iter()
        .map(|(position, _)| position)
        .collect()
}

fn interpret_from(expression: &Hir, input: &[u16], state: (usize, bool)) -> BTreeSet<(usize, bool)> {
    let (position, after_current) = state;
    match expression {
        Hir::Never => BTreeSet::new(),
        Hir::Epsilon => BTreeSet::from([state]),
        Hir::Assertion(assertion) => {
            if assertion_matches(*assertion, input, position, after_current) {
                BTreeSet::from([state])
            } else {
                BTreeSet::new()
            }
        }
        Hir::Symbol(expected) => input
            .get(position)
            .filter(|&&actual| actual == *expected)
            .map_or_else(BTreeSet::new, |_| BTreeSet::from([(position + 1, true)])),
        Hir::Predicate(predicate) => input
            .get(position)
            .filter(|&&actual| predicate.matches(actual))
            .map_or_else(BTreeSet::new, |_| BTreeSet::from([(position + 1, true)])),
        Hir::Sequence(expressions) => {
            let mut states = BTreeSet::from([state]);
            for item in expressions {
                states = states
                    .into_iter()
                    .flat_map(|state| interpret_from(item, input, state))
                    .collect();
            }
            states
        }
        Hir::Alternation(expressions) => expressions
            .iter()
            .flat_map(|branch| interpret_from(branch, input, state))
            .collect(),
        Hir::Repeat {
            expression,
            min,
            max,
        } => interpret_repetition(expression, *min, *max, input, state),
    }
}

fn interpret_repetition(
    expression: &Hir,
    min: u16,
    max: Option<u16>,
    input: &[u16],
    start: (usize, bool),
) -> BTreeSet<(usize, bool)> {
    let mut accepted = BTreeSet::new();
    let mut positions = BTreeSet::from([start]);
    if min == 0 {
        accepted.insert(start);
    }
    let limit = max.map_or_else(
        || usize::from(min).saturating_add(input.len()).saturating_add(1),
        usize::from,
    );
    for count in 1..=limit {
        positions = positions
            .into_iter()
            .flat_map(|state| interpret_from(expression, input, state))
            .collect();
        if positions.is_empty() {
            break;
        }
        if count >= usize::from(min) {
            accepted.extend(&positions);
        }
    }
    accepted
}

fn generated_patterns() -> Vec<String> {
    let atoms = ["a", "b", ".", "[ab]"];
    let mut patterns = atoms.iter().map(ToString::to_string).collect::<Vec<_>>();
    for left in atoms {
        for right in atoms {
            patterns.push(format!("{left}{right}"));
            patterns.push(format!("{left}|{right}"));
            patterns.push(format!("x({left}|{right})"));
            patterns.push(format!("x(|{left}){right}"));
            patterns.push(format!("{left}?{right}"));
            patterns.push(format!("{left}+"));
            patterns.push(format!("({left}|{right}){{1,2}}"));
        }
    }
    patterns.extend(["^a", "a$", r"\ba\b", r"\Ba", r"a\B", "(^a|b$)"].map(ToString::to_string));
    patterns
}

fn generated_inputs() -> Vec<String> {
    let alphabet = ['a', 'b', '\n'];
    let mut inputs = vec![String::new()];
    let mut frontier = vec![String::new()];
    for _ in 0..3 {
        frontier = frontier
            .into_iter()
            .flat_map(|prefix| {
                alphabet.map(move |symbol| {
                    let mut input = prefix.clone();
                    input.push(symbol);
                    input
                })
            })
            .collect();
        inputs.extend(frontier.iter().cloned());
    }
    inputs
}
