use rustmatch::predicate::SymbolPredicate;

#[test]
fn any_matches_the_complete_utf16_domain() {
    let predicate = SymbolPredicate::any();
    let unmatched = (0..=u16::MAX).find(|&symbol| !predicate.matches(symbol));
    assert_eq!(unmatched, None);
}

#[test]
fn shorthand_predicates_keep_the_documented_ascii_members() {
    let digit = SymbolPredicate::digit();
    let word = SymbolPredicate::word();
    let whitespace = SymbolPredicate::whitespace();

    let actual_digits: Vec<_> = (0..=u16::MAX).filter(|&unit| digit.matches(unit)).collect();
    let actual_word: Vec<_> = (0..=u16::MAX).filter(|&unit| word.matches(unit)).collect();
    let actual_whitespace: Vec<_> = (0..=u16::MAX)
        .filter(|&unit| whitespace.matches(unit))
        .collect();

    assert_eq!(
        actual_digits,
        (u16::from(b'0')..=u16::from(b'9')).collect::<Vec<_>>()
    );
    assert_eq!(actual_word.len(), 63);
    assert!(actual_word.contains(&u16::from(b'_')));
    assert_eq!(actual_whitespace, vec![9, 10, 11, 12, 13, 32]);
}

#[test]
fn ranges_union_and_complement_cover_ascii_and_non_ascii() {
    let mut range = SymbolPredicate::empty();
    let inserted_ascii = range.insert_range(u16::from(b'a'), u16::from(b'c'));
    let inserted_non_ascii = range.insert_range(0x03b1, 0x03b3);
    let with_digit = range.union(SymbolPredicate::digit());

    let complement = with_digit.complement();

    assert!(inserted_ascii);
    assert!(inserted_non_ascii);
    assert!(
        !with_digit
            .clone()
            .insert_range(u16::from(b'z'), u16::from(b'a'))
    );
    assert!(with_digit.matches(u16::from(b'b')));
    assert!(with_digit.matches(0x03b2));
    assert!(!complement.matches(u16::from(b'b')));
    assert!(!complement.matches(0x03b2));
    assert!(complement.matches(u16::from(b'!')));
    assert!(complement.matches(0xd800));
    assert!(complement.matches(u16::MAX));
}

#[test]
fn overlapping_and_adjacent_ranges_are_normalized() {
    let mut predicate = SymbolPredicate::empty();

    assert!(predicate.insert_range(200, 210));
    assert!(predicate.insert_range(190, 199));
    assert!(predicate.insert_range(205, 220));

    assert_eq!(predicate.non_ascii_ranges(), &[(190, 220)][..]);
}

#[test]
fn from_ranges_and_single_inserts_agree() {
    let from_ranges = SymbolPredicate::from_ranges(&[(0x61, 0x63), (0x100, 0x102)]);
    let mut inserted = SymbolPredicate::empty();
    for unit in [0x61, 0x62, 0x63, 0x100, 0x101, 0x102] {
        inserted.insert(unit);
    }
    assert!(from_ranges.same_as(&inserted));
    assert!(!from_ranges.is_ascii_only());
    assert!(SymbolPredicate::digit().is_ascii_only());
    assert!(SymbolPredicate::empty().is_empty());
    assert!(!from_ranges.is_empty());
}
