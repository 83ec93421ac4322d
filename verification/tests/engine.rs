use regexr_server::config::{MAX_CAPTURE_CELLS, MAX_TOOL_RESULT_BYTES};
use regexr_server::solve::engine::{
    compile_failed_message, compile_options, error_message_text, span_from_ovector, spans_valid,
    version_text, CompiledRegex, ExecOutcome, MatchScan, MatchSpan, ScanAction, PCRE2_UNSET,
};
use regexr_server::solve::errors::SolveError;

/// Run a global scan over `text`, answering each attempt with `engine`
/// (what PCRE2 returns for the attempt at `start`, `retry` asking for the
/// non-empty anchored retry). Returns the kept spans, the attempts made and
/// how the scan ended.
fn scan(
    text: &str,
    ngroups: usize,
    max: Option<usize>,
    engine: impl Fn(usize, bool) -> Option<(usize, usize)>,
) -> (Vec<(usize, usize)>, Vec<(usize, bool)>, ScanAction) {
    let mut scan = MatchScan::new(text, ngroups, max);
    let mut kept = Vec::new();
    let mut attempts = Vec::new();
    let mut action = scan.first_action();
    loop {
        match action {
            ScanAction::Exec { start, retry } => {
                attempts.push((start, retry));
                assert!(attempts.len() < 100_000, "scan does not end");
                let found = engine(start, retry);
                let outcome = match found {
                    Some((s, e)) => ExecOutcome::Matched { start: s, end: e },
                    None => ExecOutcome::NoMatch,
                };
                let step = scan.on_outcome(text, outcome);
                if step.record {
                    kept.push(found.unwrap());
                }
                action = step.next;
            }
            other => return (kept, attempts, other),
        }
    }
}

/// Longest run of `c` at `start` (what `c*` matches there).
fn run_of(text: &str, c: char, start: usize) -> usize {
    let mut end = start;
    for ch in text[start..].chars() {
        if ch != c {
            break;
        }
        end += ch.len_utf8();
    }
    end
}

/// PCRE2 for `c*` in global mode: the first (possibly empty) run of `c`
/// from `start`; the anchored non-empty retry only matches a run right at
/// `start`.
fn star_engine(text: &str, c: char) -> impl Fn(usize, bool) -> Option<(usize, usize)> + '_ {
    move |start, retry| {
        let end = run_of(text, c, start);
        if retry && end == start {
            None
        } else {
            Some((start, end))
        }
    }
}

#[test]
fn unknown_modifier() {
    match compile_options("a", "gz") {
        Err(SolveError::RegexParse { message }) => assert_eq!(message, "Unknown modifier 'z'"),
        _ => panic!("expected compile error"),
    }
}

#[test]
fn compile_error_has_offset() {
    let message = compile_failed_message("missing closing parenthesis", 3);
    assert!(message.contains("at offset"), "{message}");
    assert_eq!(message, "Compilation failed: missing closing parenthesis at offset 3");
}

#[test]
fn compile_failed_message_offsets_in_decimal() {
    assert_eq!(compile_failed_message("x", 0), "Compilation failed: x at offset 0");
    assert_eq!(compile_failed_message("x", 16384), "Compilation failed: x at offset 16384");
}

#[test]
fn flags_select_options() {
    let o = compile_options("a", "gimsxuUADJnSX \n\r").unwrap();
    assert!(o.global && o.caseless && o.multiline && o.dotall && o.extended);
    assert!(o.ungreedy && o.anchored && o.dollar_endonly && o.dupnames && o.no_auto_capture);
    let none = compile_options("a", "").unwrap();
    assert!(!none.global && !none.caseless && !none.multiline && !none.no_auto_capture);
    // `u`, `S`, `X` and whitespace change nothing
    let ignored = compile_options("a", "uSX \n\r").unwrap();
    assert!(!ignored.global && !ignored.caseless && !ignored.extended && !ignored.ungreedy);
}

#[test]
fn first_unknown_modifier_is_named() {
    match compile_options("a", "giqz") {
        Err(SolveError::RegexParse { message }) => assert_eq!(message, "Unknown modifier 'q'"),
        _ => panic!("expected compile error"),
    }
}

#[test]
fn pattern_size_limit() {
    let long = "a".repeat(16 * 1024 + 1);
    match compile_options(&long, "z") {
        Err(SolveError::RegexParse { message }) => {
            assert_eq!(message, "Compilation failed: pattern too long at offset 0")
        }
        _ => panic!("expected compile error"),
    }
    assert!(compile_options(&"a".repeat(16 * 1024), "g").is_ok());
}

#[test]
fn empty_match_retries_nonempty_alternative() {
    // (?:|a) on "ab": after the empty match at 0 the non-empty retry at the
    // same offset finds the "a" branch; at 1 the retry fails and the scan
    // advances one char.
    let text = "ab";
    let engine = |start: usize, retry: bool| {
        if retry {
            if text[start..].starts_with('a') {
                Some((start, start + 1))
            } else {
                None
            }
        } else {
            Some((start, start))
        }
    };
    let (kept, _, end) = scan(text, 0, None, engine);
    assert_eq!(kept, vec![(0, 0), (0, 1), (1, 1), (2, 2)]);
    assert!(matches!(end, ScanAction::Stop { truncated: false }));
}

#[test]
fn empty_match_global_does_not_hang() {
    let (kept, attempts, _) = scan("baa", 0, None, star_engine("baa", 'a'));
    // "": 0..0, "aa": 1..3, "": 3..3
    assert_eq!(kept, vec![(0, 0), (1, 3), (3, 3)]);
    assert_eq!(attempts, vec![(0, false), (0, true), (1, false), (3, false)]);
}

#[test]
fn empty_match_multibyte_advances_one_char() {
    let text = "中文abc";
    let (kept, attempts, _) = scan(text, 0, None, star_engine(text, 'x'));
    assert_eq!(kept, vec![(0, 0), (3, 3), (6, 6), (7, 7), (8, 8), (9, 9)]);
    for (start, _) in attempts {
        assert!(text.is_char_boundary(start));
    }
}

#[test]
fn empty_match_astral_stays_on_char_boundaries() {
    let text = "\u{1F600}x";
    let (kept, _, _) = scan(text, 0, None, star_engine(text, 'x'));
    // "" at the emoji, "x" at 4..5, then "" at the end.
    assert_eq!(kept, vec![(0, 0), (4, 5), (5, 5)]);
}

#[test]
fn many_groups_hit_capture_cell_budget() {
    // (x?) repeated 600 times never consumes 'a': every position yields one
    // empty match carrying 601 cells; 2000 positions x 601 is over budget.
    let text = "a".repeat(2000);
    let (kept, _, end) = scan(&text, 600, Some(20_000), star_engine(&text, 'x'));
    assert!(matches!(end, ScanAction::Fail(SolveError::ResultTooLarge)));
    assert_eq!(kept.len(), MAX_CAPTURE_CELLS / 601);
}

#[test]
fn match_cap_stops_and_reports_truncation() {
    let text = "aaaaa";
    let engine = |start: usize, _retry: bool| {
        if start < text.len() {
            Some((start, start + 1))
        } else {
            None
        }
    };
    let (kept, attempts, end) = scan(text, 0, Some(3), engine);
    assert_eq!(kept, vec![(0, 1), (1, 2), (2, 3)]);
    assert!(matches!(end, ScanAction::Stop { truncated: true }));
    // the match past the cap was found, then the scan stopped
    assert_eq!(attempts.len(), 4);
    let (all, _, end) = scan(text, 0, None, engine);
    assert_eq!(all.len(), 5);
    assert!(matches!(end, ScanAction::Stop { truncated: false }));
}

#[test]
fn no_match_stops_at_once() {
    let (kept, attempts, end) = scan("abc", 2, None, |_, _| None);
    assert!(kept.is_empty());
    assert_eq!(attempts, vec![(0, false)]);
    assert!(matches!(end, ScanAction::Stop { truncated: false }));
}

fn span(start: usize, end: usize, groups: Vec<Option<(usize, usize)>>) -> MatchSpan {
    MatchSpan { start, end, groups }
}

#[test]
fn replace_expands_refs() {
    // (\w+)@(\w+) on "bob@host x"
    let re = CompiledRegex::new(3, false);
    let text = "bob@host x";
    let spans = vec![span(0, 8, vec![Some((0, 3)), Some((4, 8))])];
    assert!(spans_valid(text, &spans));
    let out = re.replace_with_spans(text, &spans, "$2:$1").unwrap();
    assert_eq!(out, "host:bob x");
}

#[test]
fn list_concatenates() {
    // \d+ on "a1b22c333"
    let re = CompiledRegex::new(1, true);
    let text = "a1b22c333";
    let spans = vec![span(1, 2, vec![]), span(3, 5, vec![]), span(6, 9, vec![])];
    let out = re.list_with_spans(text, &spans, "<$0>").unwrap();
    assert_eq!(out, "<1><22><333>");
}

#[test]
fn replace_output_budget_is_enforced() {
    // 10,000 matches x 1KiB replacement = ~10MB > MAX_TOOL_RESULT_BYTES.
    let re = CompiledRegex::new(1, true);
    let text = "a".repeat(10_000);
    let spans: Vec<MatchSpan> = (0..10_000).map(|i| span(i, i + 1, vec![])).collect();
    let repl = "x".repeat(1024);
    match re.replace_with_spans(&text, &spans, &repl) {
        Err(SolveError::ResultTooLarge) => {}
        Ok(_) => panic!("expected ResultTooLarge"),
        Err(other) => panic!("expected ResultTooLarge, got {other:?}"),
    }
    match re.list_with_spans(&text, &spans, &repl) {
        Err(SolveError::ResultTooLarge) => {}
        _ => panic!("expected ResultTooLarge"),
    }
}

#[test]
fn output_exactly_at_budget_is_kept() {
    let re = CompiledRegex::new(1, true);
    let text = "ab";
    let spans = vec![span(0, 1, vec![])];
    let repl = "x".repeat(MAX_TOOL_RESULT_BYTES);
    let out = re.list_with_spans(text, &spans, &repl).unwrap();
    assert_eq!(out.len(), MAX_TOOL_RESULT_BYTES);
    let too_much = "x".repeat(MAX_TOOL_RESULT_BYTES + 1);
    assert!(re.list_with_spans(text, &spans, &too_much).is_err());
}

#[test]
fn unmatched_group_expands_to_nothing() {
    // (a)|(b) on "ab": the second match has only group 2
    let re = CompiledRegex::new(3, true);
    let text = "ab";
    let spans = vec![span(0, 1, vec![Some((0, 1)), None]), span(1, 2, vec![None, Some((1, 2))])];
    assert_eq!(re.replace_with_spans(text, &spans, "[$1|$2]").unwrap(), "[a|][|b]");
    assert_eq!(re.ngroups(), 2);
    assert!(re.global());
}

#[test]
fn replace_by_whole_match_gives_text_back() {
    let re = CompiledRegex::new(2, true);
    let text = "x中\u{1F600}yz";
    let spans = vec![span(1, 4, vec![Some((1, 4))]), span(4, 8, vec![None]), span(9, 10, vec![None])];
    assert!(spans_valid(text, &spans));
    assert_eq!(re.replace_with_spans(text, &spans, "$0").unwrap(), text);
}

#[test]
fn tools_without_matches() {
    let re = CompiledRegex::new(1, false);
    assert_eq!(re.replace_with_spans("abc", &[], "$0-").unwrap(), "abc");
    assert_eq!(re.list_with_spans("abc", &[], "$0-").unwrap(), "");
}

#[test]
fn span_checks() {
    let text = "中a";
    assert!(spans_valid(text, &[span(0, 3, vec![]), span(3, 4, vec![None])]));
    // mid-char offset
    assert!(!spans_valid(text, &[span(1, 3, vec![])]));
    // past the end
    assert!(!spans_valid(text, &[span(3, 5, vec![])]));
    // overlapping
    assert!(!spans_valid(text, &[span(0, 4, vec![]), span(3, 4, vec![])]));
    // a group out of range
    assert!(!spans_valid(text, &[span(0, 3, vec![Some((3, 9))])]));
}

#[test]
fn version_text_reads_nul_terminated() {
    let mut buf = [0u8; 64];
    buf[..16].copy_from_slice(b"10.42 2023-12-11");
    assert_eq!(version_text(16, &buf), "10.42 2023-12-11");
    assert!(version_text(16, &buf).starts_with("10."));
    assert_eq!(version_text(-1, &buf), "PCRE2");
    assert_eq!(version_text(0, &[0u8; 8]), "PCRE2");
    assert_eq!(version_text(3, b"abc"), "abc");
}

#[test]
fn error_message_text_is_clamped() {
    let buf = b"no more memory\0\0";
    assert_eq!(error_message_text(14, buf), "no more memory");
    assert_eq!(error_message_text(-2, buf), "");
    assert_eq!(error_message_text(99, b"ab"), "ab");
    // invalid UTF-8 is replaced, not rejected
    assert_eq!(error_message_text(2, &[0x61, 0xff]), "a\u{FFFD}");
}

#[test]
fn unmatched_group_maps_to_none() {
    // (a)|(b) on "ab": the ovectors PCRE2 leaves after each match
    let first = span_from_ovector(&[0, 1, 0, 1, PCRE2_UNSET, PCRE2_UNSET], 3);
    assert_eq!((first.start, first.end), (0, 1));
    assert_eq!(first.groups, vec![Some((0, 1)), None]);
    let second = span_from_ovector(&[1, 2, PCRE2_UNSET, PCRE2_UNSET, 1, 2], 3);
    assert_eq!(second.groups[0], None);
    assert_eq!(second.groups[1], Some((1, 2)));
}

#[test]
fn ovector_without_groups() {
    let sp = span_from_ovector(&[3, 5, 7, 7], 1);
    assert_eq!((sp.start, sp.end), (3, 5));
    assert!(sp.groups.is_empty());
    let unset = span_from_ovector(&[PCRE2_UNSET, 4], 1);
    assert_eq!((unset.start, unset.end), (0, 0));
}

#[test]
fn empty_match_past_the_start_is_kept_once() {
    // `$` on "ab": the only match is the empty one at the end
    let text = "ab";
    let dollar = |_start: usize, retry: bool| if retry { None } else { Some((2, 2)) };
    let (kept, _, end) = scan(text, 0, None, dollar);
    assert_eq!(kept, vec![(2, 2)]);
    assert!(matches!(end, ScanAction::Stop { truncated: false }));
    // `(?=b)` on "ab": one empty match at 1, then the retry there fails
    let lookahead = |start: usize, retry: bool| match text[start..].find('b') {
        Some(p) if !retry => Some((start + p, start + p)),
        _ => None,
    };
    let (kept, attempts, _) = scan(text, 0, None, lookahead);
    assert_eq!(kept, vec![(1, 1)]);
    assert_eq!(attempts, vec![(0, false), (1, true), (2, false)]);
}

#[test]
fn replace_at_an_empty_match_past_the_start() {
    let text = "ab";
    let dollar = |_start: usize, retry: bool| if retry { None } else { Some((2, 2)) };
    let (kept, _, _) = scan(text, 0, None, dollar);
    let spans: Vec<MatchSpan> = kept.iter().map(|&(s, e)| span(s, e, vec![])).collect();
    let re = CompiledRegex::new(1, true);
    assert_eq!(re.replace_with_spans(text, &spans, "X").unwrap(), "abX");
}

#[test]
fn simple_match_offsets() {
    // \w+ on "ab cd"
    let text = "ab cd";
    let word = |start: usize, _retry: bool| {
        let rest = &text[start..];
        let s = start + rest.find(|c: char| c.is_alphanumeric())?;
        let e = s + text[s..].find(|c: char| !c.is_alphanumeric()).unwrap_or(text.len() - s);
        Some((s, e))
    };
    let (kept, _, _) = scan(text, 0, None, word);
    assert_eq!(kept.len(), 2);
    assert_eq!(kept[0], (0, 2));
    assert_eq!(kept[1], (3, 5));
}

#[test]
fn utf8_offsets_and_groups() {
    // (中)+ on "a中中b": the ovector PCRE2 leaves, in bytes
    let sp = span_from_ovector(&[1, 7, 4, 7], 2);
    assert_eq!((sp.start, sp.end), (1, 7)); // bytes
    assert_eq!(sp.groups[0], Some((4, 7)));
    assert!(spans_valid("a中中b", &[sp]));
}

#[test]
fn replace_budget_counts_the_text_after_the_last_match() {
    let re = CompiledRegex::new(1, true);
    let big = "a".repeat(MAX_TOOL_RESULT_BYTES + 1);
    assert!(matches!(re.replace_with_spans(&big, &[], "x"), Err(SolveError::ResultTooLarge)));
    let fits = "a".repeat(MAX_TOOL_RESULT_BYTES);
    assert_eq!(re.replace_with_spans(&fits, &[], "x").unwrap().len(), MAX_TOOL_RESULT_BYTES);
    // expansions that fit, followed by a tail that does not
    let text = format!("b{}", "a".repeat(10));
    let spans = vec![span(0, 1, vec![])];
    let repl = "x".repeat(MAX_TOOL_RESULT_BYTES - 5);
    assert!(matches!(re.replace_with_spans(&text, &spans, &repl), Err(SolveError::ResultTooLarge)));
    let repl = "x".repeat(MAX_TOOL_RESULT_BYTES - 10);
    assert_eq!(re.replace_with_spans(&text, &spans, &repl).unwrap().len(), MAX_TOOL_RESULT_BYTES);
}

#[test]
fn capped_scan_attempts_are_bounded() {
    // x* on "aaaaaaaa": every position gives an empty match and a failed retry
    let text = "aaaaaaaa";
    for n in 0..5usize {
        let (kept, attempts, end) = scan(text, 0, Some(n), star_engine(text, 'x'));
        assert_eq!(kept.len(), n);
        assert!(attempts.len() <= 2 * n + 2, "{} attempts for cap {}", attempts.len(), n);
        assert!(matches!(end, ScanAction::Stop { truncated: true }));
    }
    let (_, attempts, _) = scan(text, 0, None, star_engine(text, 'x'));
    assert!(attempts.len() <= 2 * text.len() + 2);
}

#[test]
fn first_kept_span_is_the_first_attempt() {
    let text = "xxab";
    let engine = |start: usize, retry: bool| {
        let p = start + text[start..].find('a')?;
        if retry && p == start { None } else { Some((p, p + 1)) }
    };
    let (kept, attempts, _) = scan(text, 0, None, engine);
    assert_eq!(attempts[0], (0, false));
    assert_eq!(kept[0], engine(0, false).unwrap());
}
