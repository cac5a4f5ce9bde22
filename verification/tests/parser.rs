use rustmatch::hir::{Assertion, Hir};
use rustmatch::parser::{parse, parse_with_flags};
use rustmatch::{Error, PatternFlags, PatternId, Utf16Span};

#[test]
fn parser_rejects_lazy_quantifier_at_its_utf16_position() {
    let pattern_id = PatternId::new(41);

    let result = parse(pattern_id, "ab+?");

    assert!(matches!(
        result,
        Err(Error::UnsupportedPattern {
            pattern_id: actual_id,
            span,
            code_unit
        }) if actual_id == pattern_id
            && span == Utf16Span::from_bounds(3, 4)
            && code_unit == u16::from(b'?')
    ));
}

#[test]
fn parser_lowers_dot_classes_and_escapes_to_atoms() -> Result<(), Error> {
    let pattern_id = PatternId::new(42);

    let pattern = parse(pattern_id, r"a.[b-d\d]\.")?;

    let Hir::Sequence(atoms) = pattern.expression() else {
        panic!("pattern did not lower to a sequence");
    };
    assert_eq!(atoms.len(), 4);
    assert!(matches!(atoms[0], Hir::Symbol(symbol) if symbol == u16::from(b'a')));
    let Hir::Predicate(dot) = &atoms[1] else {
        panic!("dot did not lower to a predicate");
    };
    assert!((0..=u16::MAX).all(|unit| dot.matches(unit)));
    let Hir::Predicate(class) = &atoms[2] else {
        panic!("character class did not lower to a predicate");
    };
    assert!(class.matches(u16::from(b'b')));
    assert!(class.matches(u16::from(b'c')));
    assert!(class.matches(u16::from(b'd')));
    assert!(class.matches(u16::from(b'7')));
    assert!(!class.matches(u16::from(b'a')));
    assert!(matches!(atoms[3], Hir::Symbol(symbol) if symbol == u16::from(b'.')));
    Ok(())
}

#[test]
fn parser_reports_malformed_escape_range_and_class_spans() {
    let pattern_id = PatternId::new(43);
    let patterns = [r"ab\", "[z-a]", "[abc"];

    let errors: Vec<_> = patterns
        .into_iter()
        .map(|pattern| parse(pattern_id, pattern))
        .collect();

    assert!(errors.iter().all(|result| matches!(
        result,
        Err(Error::InvalidPattern {
            pattern_id: actual_id,
            ..
        }) if *actual_id == pattern_id
    )));
}

#[test]
fn parser_is_total_over_every_one_and_two_byte_ascii_pattern() {
    let pattern_id = PatternId::new(44);
    let symbols: Vec<char> = (0_u8..=127).map(char::from).collect();

    for &first in &symbols {
        let _ = parse(pattern_id, &first.to_string());
        for &second in &symbols {
            let pattern = [first, second].iter().collect::<String>();
            let _ = parse(pattern_id, &pattern);
        }
    }
}

#[test]
fn empty_pattern_and_deep_nesting_have_typed_errors() {
    let pattern_id = PatternId::new(45);
    assert!(matches!(parse(pattern_id, ""), Err(Error::EmptyPattern { pattern_id: actual }) if actual == pattern_id));
    let deep = format!("{}a{}", "(".repeat(200), ")".repeat(200));
    assert!(matches!(
        parse(pattern_id, &deep),
        Err(Error::PatternNestingTooDeep { pattern_id: actual, .. }) if actual == pattern_id
    ));
    assert!(matches!(
        parse(pattern_id, "a{1001}"),
        Err(Error::InvalidPattern { pattern_id: actual, .. }) if actual == pattern_id
    ));
}

#[test]
fn case_insensitive_flag_and_prefix_fold_ascii_letters() -> Result<(), Error> {
    let pattern_id = PatternId::new(46);
    let flagged = parse_with_flags(pattern_id, "a", PatternFlags::case_insensitive())?;
    let prefixed = parse(pattern_id, "(?i)a")?;
    for pattern in [&flagged, &prefixed] {
        let Hir::Predicate(predicate) = pattern.expression() else {
            panic!("folded letter did not lower to a predicate");
        };
        assert!(predicate.matches(u16::from(b'a')));
        assert!(predicate.matches(u16::from(b'A')));
        assert!(!predicate.matches(u16::from(b'b')));
    }
    Ok(())
}

#[test]
fn case_flag_prefix_widens_each_cased_unit_of_a_literal() -> Result<(), Error> {
    let pattern = parse(PatternId::new(43), "(?i)k1")?;

    let Hir::Sequence(atoms) = pattern.expression() else {
        panic!("folded literal did not lower to a sequence");
    };
    assert_eq!(atoms.len(), 2);
    let Hir::Predicate(variants) = &atoms[0] else {
        panic!("cased unit did not widen to its variants");
    };
    let members: Vec<u16> = (0..=u16::MAX).filter(|&unit| variants.matches(unit)).collect();
    assert_eq!(members, vec![u16::from(b'K'), u16::from(b'k')]);
    assert!(matches!(atoms[1], Hir::Symbol(symbol) if symbol == u16::from(b'1')));

    let flagged = parse_with_flags(PatternId::new(44), "k1", PatternFlags::case_insensitive())?;
    assert_eq!(
        format!("{:?}", flagged.expression()),
        format!("{:?}", pattern.expression())
    );
    Ok(())
}

#[test]
fn quantifiers_bind_to_the_preceding_unit() -> Result<(), Error> {
    let pattern = parse(PatternId::new(45), "ab+c{2,8}")?;

    let Hir::Sequence(items) = pattern.expression() else {
        panic!("quantified text did not lower to a sequence");
    };
    assert_eq!(items.len(), 3);
    assert!(matches!(items[0], Hir::Symbol(symbol) if symbol == u16::from(b'a')));
    assert!(matches!(
        &items[1],
        Hir::Repeat { expression, min: 1, max: None }
            if matches!(**expression, Hir::Symbol(symbol) if symbol == u16::from(b'b'))
    ));
    assert!(matches!(
        &items[2],
        Hir::Repeat { expression, min: 2, max: Some(8) }
            if matches!(**expression, Hir::Symbol(symbol) if symbol == u16::from(b'c'))
    ));

    let emptied = parse(PatternId::new(46), "a{0}");
    assert!(matches!(
        emptied,
        Err(Error::InvalidPattern { pattern_id, span })
            if pattern_id == PatternId::new(46) && span == Utf16Span::from_bounds(0, 4)
    ));
    Ok(())
}

#[test]
fn anchors_boundaries_and_escapes_are_atoms_of_the_sequence() -> Result<(), Error> {
    let anchored = parse(PatternId::new(47), "^ab$")?;
    let Hir::Sequence(items) = anchored.expression() else {
        panic!("anchored text did not lower to a sequence");
    };
    assert_eq!(items.len(), 4);
    assert!(matches!(items[0], Hir::Assertion(Assertion::LineStart)));
    assert!(matches!(items[1], Hir::Symbol(symbol) if symbol == u16::from(b'a')));
    assert!(matches!(items[2], Hir::Symbol(symbol) if symbol == u16::from(b'b')));
    assert!(matches!(items[3], Hir::Assertion(Assertion::LineEnd)));

    let bounded = parse(PatternId::new(48), r"\bx\.\B")?;
    let Hir::Sequence(items) = bounded.expression() else {
        panic!("escaped text did not lower to a sequence");
    };
    assert_eq!(items.len(), 4);
    assert!(matches!(items[0], Hir::Assertion(Assertion::WordBoundary)));
    assert!(matches!(items[1], Hir::Symbol(symbol) if symbol == u16::from(b'x')));
    assert!(matches!(items[2], Hir::Symbol(symbol) if symbol == u16::from(b'.')));
    assert!(matches!(items[3], Hir::Assertion(Assertion::NonWordBoundary)));

    let only_anchors = parse(PatternId::new(49), "^$");
    assert!(matches!(
        only_anchors,
        Err(Error::InvalidPattern { span, .. }) if span == Utf16Span::from_bounds(0, 2)
    ));
    Ok(())
}
