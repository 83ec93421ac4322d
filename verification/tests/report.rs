use regexr_server::solve::engine::MatchSpan;
use regexr_server::solve::errors::SolveError;
use regexr_server::solve::offsets::Utf16Indexer;
use regexr_server::solve::report::{json_group, json_match, JsonGroup};
use regexr_server::text::{starts_with, str_eq, string_from_utf8_lossy};

#[test]
fn match_report_uses_utf16_offsets() {
    let text = "\u{1F600}中ab";
    let ix = Utf16Indexer::new(text);
    let sp = MatchSpan { start: 4, end: 8, groups: vec![Some((7, 8)), None] };
    let m = json_match(&sp, &ix);
    assert_eq!((m.i, m.l), (2, 2));
    assert_eq!(m.groups, vec![JsonGroup { i: 3, l: 1 }, JsonGroup { i: 0, l: 0 }]);
    assert_eq!(json_group(Some((0, 4)), &ix), JsonGroup { i: 0, l: 2 });
    assert_eq!(json_group(None, &ix), JsonGroup { i: 0, l: 0 });
}

#[test]
fn error_objects() {
    let j = SolveError::RegexParse { message: "Unknown modifier 'z'".to_string() }.to_json();
    assert_eq!(j.message.as_deref(), Some("Unknown modifier 'z'"));
    assert_eq!((j.name.as_str(), j.id.as_str(), j.warning), ("PREG_INTERNAL_ERROR", "error", false));
    let j = SolveError::MatchLimit.to_json();
    assert_eq!(j.message, None);
    assert_eq!((j.name.as_str(), j.id.as_str(), j.warning), ("PREG_BACKTRACK_LIMIT_ERROR", "infinite", true));
    let j = SolveError::DepthLimit.to_json();
    assert_eq!((j.name.as_str(), j.warning), ("PREG_RECURSION_LIMIT_ERROR", true));
    let j = SolveError::JitStackLimit.to_json();
    assert_eq!((j.name.as_str(), j.warning), ("PREG_JIT_STACKLIMIT_ERROR", true));
    let j = SolveError::BadUtf8.to_json();
    assert_eq!((j.name.as_str(), j.id.as_str(), j.warning), ("PREG_BAD_UTF8_ERROR", "badutf8", false));
    let j = SolveError::ResultTooLarge.to_json();
    assert_eq!(j.message.as_deref(), Some("Result exceeded server resource limits"));
    assert_eq!(j.id, "error");
    let j = SolveError::Internal { code: -99, message: "bad".to_string() }.to_json();
    assert_eq!((j.message.as_deref(), j.name.as_str()), (Some("bad"), "PREG_INTERNAL_ERROR"));
}

#[test]
fn text_helpers() {
    assert!(str_eq("中", "中"));
    assert!(!str_eq("a", "ab"));
    assert!(starts_with("assets/x", "assets/"));
    assert!(!starts_with("asset", "assets/"));
    assert_eq!(string_from_utf8_lossy(&[0xe4, 0xb8, 0xad]), "中");
    assert_eq!(string_from_utf8_lossy(&[0x61, 0xe4, 0xb8]), "a\u{FFFD}");
}
