use rustmatch::harness::{event_hash, event_summary, median, parse_pattern_rows, Event, EventSummary, HarnessFixture, RowError};

#[test]
fn harness_fixture_maps_ascii_bytes_to_equal_utf16_units() -> Result<(), RowError> {
    let patterns = b"1\tcat\n2\tc.t\n";
    let corpus = b"cat cut";

    let fixture = HarnessFixture::from_bytes(patterns, corpus)?;

    assert_eq!(fixture.patterns.len(), 2);
    assert_eq!(fixture.patterns[0].id.get(), 1);
    assert_eq!(fixture.patterns[1].expression, b"c.t");
    assert_eq!(fixture.corpus_bytes, corpus.len());
    assert_eq!(fixture.input.as_units().len(), corpus.len());
    assert_eq!(fixture.input.as_units(), &[99, 97, 116, 32, 99, 117, 116]);
    Ok(())
}

#[test]
fn harness_fixture_rejects_ambiguous_or_non_ascii_input() {
    let duplicate_ids = b"1\tcat\n1\tdog\n";
    let zero_id = b"0\tcat\n";
    let extra_tab = b"1\tca\tt\n";
    let non_ascii_corpus = &[0xff];

    let duplicate_result = HarnessFixture::from_bytes(duplicate_ids, b"cat dog");
    let zero_result = HarnessFixture::from_bytes(zero_id, b"cat");
    let tab_result = HarnessFixture::from_bytes(extra_tab, b"cat");
    let corpus_result = HarnessFixture::from_bytes(b"1\tcat\n", non_ascii_corpus);

    assert!(matches!(duplicate_result, Err(RowError::DuplicateId { id: 1 })));
    assert!(matches!(zero_result, Err(RowError::ZeroId { row: 1 })));
    assert!(matches!(tab_result, Err(RowError::InvalidExpression { row: 1 })));
    assert!(matches!(corpus_result, Err(RowError::CorpusNotAscii)));
}

#[test]
fn pattern_rows_accept_crlf_endings_and_refuse_malformed_rows() {
    let rows = parse_pattern_rows(b"7\ta.b\r\n+8\tx\r", true).expect("well-formed rows");
    assert_eq!(rows.len(), 2);
    assert_eq!(rows[0].id.get(), 7);
    assert_eq!(rows[0].expression, b"a.b");
    assert_eq!(rows[1].id.get(), 8);
    assert_eq!(rows[1].expression, b"x");
    assert_eq!(parse_pattern_rows(b"", true), Err(RowError::NoRows));
    assert_eq!(parse_pattern_rows(b"1 cat\n", true), Err(RowError::MissingTab { row: 1 }));
    assert_eq!(parse_pattern_rows(b"1\tcat\nx\tdog\n", true), Err(RowError::InvalidId { row: 2 }));
    assert_eq!(parse_pattern_rows(b"4294967296\tcat\n", true), Err(RowError::InvalidId { row: 1 }));
    assert_eq!(parse_pattern_rows(b"1\t\n", true), Err(RowError::InvalidExpression { row: 1 }));
    assert_eq!(parse_pattern_rows("1\tsn\u{f8}\n".as_bytes(), true), Err(RowError::PatternsNotAscii));
    let unicode = parse_pattern_rows("1\tsn\u{f8}\n".as_bytes(), false).expect("UTF-8 rows");
    assert_eq!(unicode[0].expression, "sn\u{f8}".as_bytes());
    assert_eq!(parse_pattern_rows(&[0x31, 0x09, 0xff], false), Err(RowError::PatternsNotUtf8));
}

fn reference_fnv(bytes: &[u8]) -> u64 {
    let mut hash: u64 = 0xcbf2_9ce4_8422_2325;
    for byte in bytes {
        hash ^= u64::from(*byte);
        hash = hash.wrapping_mul(0x0000_0100_0000_01b3);
    }
    hash
}

fn reference_event_hash(event: &Event) -> u64 {
    let mut bytes = Vec::new();
    bytes.extend_from_slice(&event.pattern_id.to_le_bytes());
    bytes.extend_from_slice(&event.start.to_le_bytes());
    bytes.extend_from_slice(&event.end.to_le_bytes());
    reference_fnv(&bytes)
}

#[test]
fn event_hash_is_fnv1a_over_little_endian_fields() {
    let zero = Event { pattern_id: 0, start: 0, end: 0 };
    assert_eq!(event_hash(&zero), reference_fnv(&[0u8; 20]));
    assert_ne!(event_hash(&zero), 0xcbf2_9ce4_8422_2325);

    let event = Event { pattern_id: 7, start: 0x0102_0304, end: 0x0102_0309 };
    assert_eq!(event_hash(&event), reference_event_hash(&event));
    let moved = Event { pattern_id: 7, start: 0x0102_0305, end: 0x0102_0309 };
    assert_ne!(event_hash(&event), event_hash(&moved));
}

#[test]
fn empty_event_summary_is_all_zero() {
    let summary = event_summary(&[]);
    assert_eq!(summary, EventSummary::default());
    assert_eq!(summary.count, 0);
}

#[test]
fn event_summary_adds_hash_rotation_and_square() {
    let event = Event { pattern_id: 65, start: 3, end: 9 };
    let hash = reference_event_hash(&event);
    let summary = event_summary(&[event]);
    assert_eq!(summary.count, 1);
    assert_eq!(summary.sum, hash);
    assert_eq!(summary.xor, hash.rotate_left(1));
    assert_eq!(summary.sum_of_squares, hash.wrapping_mul(hash));

    let mut added = EventSummary::default();
    added.add(&event);
    assert_eq!(added, summary);
}

#[test]
fn event_summary_ignores_event_order() {
    let a = Event { pattern_id: 1, start: 0, end: 3 };
    let b = Event { pattern_id: 2, start: 4, end: 7 };
    let c = Event { pattern_id: 1, start: 8, end: 11 };
    let forward = event_summary(&[a, b, c]);
    let backward = event_summary(&[c, b, a]);
    let shuffled = event_summary(&[b, a, c]);
    assert_eq!(forward, backward);
    assert_eq!(forward, shuffled);
    assert_eq!(forward.count, 3);

    let missing = event_summary(&[a, b]);
    assert_ne!(forward, missing);
    let doubled = event_summary(&[a, a, b]);
    assert_ne!(forward, doubled);
}

#[test]
fn median_is_the_upper_middle_of_the_sorted_samples() {
    assert_eq!(median(&[5, 1, 3, 2]), 3);
    assert_eq!(median(&[7]), 7);
    assert_eq!(median(&[4, 4, 1]), 4);
}
