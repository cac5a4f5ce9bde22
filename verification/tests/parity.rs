use rustmatch::parity::adversarial_cases;

#[test]
fn adversarial_cases_cover_every_family_in_order() {
    let cases = adversarial_cases();
    let ids: Vec<&str> = cases.iter().map(|case| case.id.as_str()).collect();
    assert_eq!(
        ids,
        vec![
            "adversarial/mixed-overlap-duplicates",
            "adversarial/empty-input",
            "adversarial/one-unit-raw-surrogate",
            "adversarial/no-match",
            "adversarial/output-heavy",
            "adversarial/large-sparse",
            "adversarial/unicode-and-surrogates",
            "adversarial/flags-and-lines",
            "adversarial/nullable-composition",
            "adversarial/large-pattern-set",
        ]
    );
    let counts: Vec<usize> = cases.iter().map(|case| case.patterns.len()).collect();
    assert_eq!(counts, vec![8, 4, 4, 4, 8, 6, 6, 6, 5, 66]);
}

#[test]
fn adversarial_inputs_are_spelled_in_utf16() {
    let cases = adversarial_cases();
    assert!(cases[1].input.is_empty());
    assert_eq!(cases[2].input, vec![0xd800]);
    assert_eq!(cases[4].input, vec![u16::from(b'a'); 64]);
    let large = &cases[5].input;
    assert_eq!(large.len(), 65_536);
    let header: Vec<u16> = "header\n".encode_utf16().collect();
    assert_eq!(&large[..header.len()], header.as_slice());
    let needle: Vec<u16> = "alpha123 needle\n".encode_utf16().collect();
    assert_eq!(&large[16_384..16_384 + needle.len()], needle.as_slice());
    let tail: Vec<u16> = "tail\n".encode_utf16().collect();
    assert_eq!(&large[65_531..], tail.as_slice());
    assert_eq!(large[7], u16::from(b'x'));
    assert_eq!(large[65_530], u16::from(b'x'));
    assert_eq!(
        cases[6].input,
        vec![0x0073, 0x006e, 0x00f8, 0x0020, 0x03b2, 0x0020, 0xd800, 0x0020, 0xd83d, 0xde00]
    );
    let flags_input: Vec<u16> = "CAT\na\nb\nline\nword sword".encode_utf16().collect();
    assert_eq!(cases[7].input, flags_input);
}

#[test]
fn large_pattern_set_alternates_plain_and_anchored_tokens() {
    let cases = adversarial_cases();
    let patterns = &cases[9].patterns;
    assert_eq!(patterns[0].id, 2_000);
    assert_eq!(patterns[0].source, "token00");
    assert_eq!(patterns[1].source, "^token01");
    assert_eq!(patterns[17].source, "^token17");
    assert_eq!(patterns[63].id, 2_063);
    assert_eq!(patterns[63].source, "^token63");
    assert_eq!(patterns[64].id, 2_100);
    assert_eq!(patterns[64].source, "needle");
    assert_eq!(patterns[65].source, r"\bneedle\b");
    assert!(patterns.iter().all(|pattern| !pattern.flags.is_case_insensitive()));
    let flagged = &cases[7].patterns[0];
    assert_eq!((flagged.id, flagged.source.as_str()), (160, "cat"));
    assert!(flagged.flags.is_case_insensitive());
    assert_eq!(cases[0].patterns[4].source, r"\ba+\b");
}
