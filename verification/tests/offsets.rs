use regexr_server::solve::offsets::{byte_to_utf16, utf16_len, Utf16Indexer};

#[test]
fn ascii_identity() {
    let s = "abc def";
    assert_eq!(byte_to_utf16(s, 4), 4);
    assert_eq!(utf16_len(s), 7);
}

#[test]
fn bmp_chars_are_one_unit() {
    // "中" is one UTF-16 unit, 3 bytes in UTF-8.
    let s = "中文abc";
    assert_eq!(byte_to_utf16(s, 3), 1);
    assert_eq!(byte_to_utf16(s, 9), 5);
    assert_eq!(utf16_len(s), 5);
}

#[test]
fn astral_chars_are_two_units() {
    // U+1F600 (GRINNING FACE) is a surrogate pair: 2 units, 4 bytes.
    let s = "\u{1F600}x";
    assert_eq!(byte_to_utf16(s, 4), 2);
    assert_eq!(utf16_len(s), 3);
}

#[test]
fn indexer_matches_one_shot_version() {
    let s = "ab\u{1F600}中def\u{1F600}";
    let ix = Utf16Indexer::new(s);
    for (b, _) in s.char_indices() {
        assert_eq!(ix.utf16_at(b), byte_to_utf16(s, b), "at byte {b}");
    }
    assert_eq!(ix.utf16_at(s.len()), utf16_len(s));
    assert_eq!(ix.len(), utf16_len(s));
}

#[test]
fn offsets_step_by_one_or_two_units() {
    let s = "a\u{1F600}中\u{10FFFF}z";
    let mut boundaries: Vec<usize> = s.char_indices().map(|(b, _)| b).collect();
    boundaries.push(s.len());
    let mapped: Vec<usize> = boundaries.iter().map(|&b| byte_to_utf16(s, b)).collect();
    assert_eq!(mapped, vec![0, 1, 3, 4, 6, 7]);
    assert_eq!(*mapped.last().unwrap(), utf16_len(s));
}

#[test]
fn empty_subject_has_no_units() {
    let ix = Utf16Indexer::new("");
    assert_eq!(ix.len(), 0);
    assert!(ix.is_empty());
    assert_eq!(ix.utf16_at(0), 0);
    assert!(!Utf16Indexer::new("x").is_empty());
}
