use rustmatch::comparison::{regex_events, CompiledRegex, CompiledRegexSet};
use rustmatch::harness::Event;

#[test]
fn regex_event_lane_preserves_overlapping_literal_starts() -> Result<(), String> {
    let regex_set = CompiledRegexSet::new(vec!["aa".to_owned()])?;
    let regexes = [CompiledRegex::new("aa")?];

    let events = regex_events(&regex_set, &regexes, "aaa")?;

    assert_eq!(
        events,
        vec![
            Event { pattern_id: 1, start: 0, end: 2 },
            Event { pattern_id: 1, start: 1, end: 3 },
        ]
    );
    Ok(())
}

#[test]
fn regex_events_follow_set_index_order_and_reject_missing_regexes() -> Result<(), String> {
    let regex_set = CompiledRegexSet::new(vec!["b".to_owned(), "a".to_owned()])?;
    let regexes = [CompiledRegex::new("b")?, CompiledRegex::new("a")?];
    let events = regex_events(&regex_set, &regexes, "ab")?;
    assert_eq!(
        events,
        vec![Event { pattern_id: 1, start: 1, end: 2 }, Event { pattern_id: 2, start: 0, end: 1 }]
    );
    let short = regex_events(&regex_set, &regexes[..1], "ab");
    assert_eq!(short, Err("RegexSet returned an out-of-range pattern index".to_owned()));
    assert!(CompiledRegex::new("(").is_err());
    Ok(())
}
