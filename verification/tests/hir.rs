use rustmatch::hir::Hir;

#[test]
fn normalization_flattens_composition_and_preserves_epsilon() {
    let nested_sequence = Hir::sequence(vec![
        Hir::Symbol(u16::from(b'a')),
        Hir::sequence(vec![Hir::Epsilon, Hir::Symbol(u16::from(b'b'))]),
    ]);
    let nested_alternation = Hir::alternation(vec![
        nested_sequence,
        Hir::alternation(vec![Hir::Never, Hir::Epsilon]),
    ]);

    let nullable = nested_alternation.nullable();
    let minimum_consumed = nested_alternation.minimum_consumed();
    let can_consume = nested_alternation.can_consume();

    let Hir::Alternation(branches) = nested_alternation else {
        panic!("alternation was not retained");
    };
    assert_eq!(branches.len(), 2);
    let Hir::Sequence(sequence) = &branches[0] else {
        panic!("sequence was not retained");
    };
    assert_eq!(sequence.len(), 2);
    assert!(nullable);
    assert_eq!(minimum_consumed, Some(0));
    assert!(can_consume);
}

#[test]
fn impossible_sequence_and_alternation_are_normalized_algebraically() {
    let impossible_sequence = Hir::sequence(vec![Hir::Symbol(u16::from(b'a')), Hir::Never]);
    let useful_alternation = Hir::alternation(vec![Hir::Never, Hir::Symbol(u16::from(b'b'))]);

    assert!(matches!(impossible_sequence, Hir::Never));
    assert!(matches!(useful_alternation, Hir::Symbol(symbol) if symbol == u16::from(b'b')));
}

#[test]
fn repetition_metadata_distinguishes_nullable_and_consuming_paths() {
    let star = Hir::repeat(Hir::Symbol(u16::from(b'a')), 0, None);
    let bounded = Hir::repeat(Hir::Symbol(u16::from(b'b')), 2, Some(4));
    let impossible = Hir::repeat(Hir::Never, 1, None);

    assert!(star.nullable());
    assert_eq!(star.minimum_consumed(), Some(0));
    assert!(star.can_consume());
    assert!(!bounded.nullable());
    assert_eq!(bounded.minimum_consumed(), Some(2));
    assert!(bounded.can_consume());
    assert!(matches!(impossible, Hir::Never));
}

#[test]
fn assertions_are_reported_through_nested_composition() {
    let plain = Hir::sequence(vec![Hir::Symbol(0x61), Hir::Symbol(0x62)]);
    let anchored = Hir::alternation(vec![
        Hir::Symbol(0x61),
        Hir::repeat(
            Hir::sequence(vec![
                Hir::Assertion(rustmatch::hir::Assertion::WordBoundary),
                Hir::Symbol(0x62),
            ]),
            1,
            Some(3),
        ),
    ]);
    assert!(!plain.uses_assertions());
    assert!(anchored.uses_assertions());
    assert_eq!(rustmatch::hir::saturating_mul(usize::MAX, 2), usize::MAX);
    assert_eq!(rustmatch::hir::saturating_mul(6, 7), 42);
}
