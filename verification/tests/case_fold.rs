use rustmatch::case_fold::lower_upper;

#[test]
fn generated_table_covers_every_utf16_code_unit() {
    assert_eq!(lower_upper(u16::from(b'a')), (u16::from(b'a'), u16::from(b'A')));
    assert_eq!(lower_upper(u16::from(b'A')), (u16::from(b'a'), u16::from(b'A')));
    assert_eq!(lower_upper(0x03a9), (0x03c9, 0x03a9));
    assert_eq!(lower_upper(0xd800), (0xd800, 0xd800));
    assert_eq!(lower_upper(u16::MAX), (u16::MAX, u16::MAX));
}

#[test]
fn simple_mappings_replace_multi_character_case_forms() {
    assert_eq!(lower_upper(0x0130), (0x0069, 0x0130));
    assert_eq!(lower_upper(0x1f80), (0x1f80, 0x1f88));
    assert_eq!(lower_upper(0x1fb3), (0x1fb3, 0x1fbc));
    assert_eq!(lower_upper(0x00df), (0x00df, 0x00df));
}
