use regexr_server::solve::engine::MatchSpan;
use regexr_server::solve::errors::SolveError;
use regexr_server::solve::report::JsonGroup;
use regexr_server::solve::solver::{
    SolveAction, SolveBody, SolveEvent, SolveOutput, SolveRequest, Solver, Subject, Test,
    TestEntry, Tool,
};

fn request(pattern: &str, flags: &str, mode: Option<&str>, text: Option<&str>) -> SolveRequest {
    SolveRequest {
        pattern: pattern.to_string(),
        flags: flags.to_string(),
        mode: mode.map(|m| m.to_string()),
        text: text.map(|t| t.to_string()),
        tool: None,
        tests: None,
    }
}

fn tool(id: &str, input: &str) -> Option<Tool> {
    Some(Tool { id: Some(id.to_string()), input: Some(input.to_string()) })
}

fn span(start: usize, end: usize) -> MatchSpan {
    MatchSpan { start, end, groups: vec![] }
}

/// Drive the solver, answering its engine requests from the closures, and
/// record every action asked for.
fn drive(
    req: &SolveRequest,
    pairs: Result<usize, SolveError>,
    one: impl Fn(&str) -> Result<Option<MatchSpan>, SolveError>,
    all: impl Fn(&str, Option<usize>) -> Result<(Vec<MatchSpan>, bool), SolveError>,
) -> (SolveOutput, Vec<String>) {
    let mut solver = Solver::new(req);
    let mut log = Vec::new();
    let mut ev = SolveEvent::Start;
    let mut pairs = Some(pairs);
    loop {
        assert!(solver.accepts_event(&ev));
        match solver.next(ev) {
            SolveAction::Compile(_) => {
                log.push("compile".to_string());
                ev = SolveEvent::Compiled(pairs.take().unwrap());
            }
            SolveAction::MatchOne(s) => {
                log.push(format!("one {:?}", s));
                ev = SolveEvent::One(one(solver.subject(s)));
            }
            SolveAction::MatchAll { max_matches } => {
                log.push(format!("all {:?}", max_matches));
                ev = SolveEvent::All(all(solver.subject(Subject::Text), max_matches));
            }
            SolveAction::Done(out) => return (out, log),
        }
    }
}

fn no_one(_: &str) -> Result<Option<MatchSpan>, SolveError> {
    panic!("no first-match call expected")
}

fn no_all(_: &str, _: Option<usize>) -> Result<(Vec<MatchSpan>, bool), SolveError> {
    panic!("no scan expected")
}

#[test]
fn global_text_mode_reports_utf16_matches() {
    let req = request("\\w", "g", None, Some("中a"));
    let (out, log) = drive(&req, Ok(1), no_one, |_, max| {
        assert_eq!(max, Some(20_000));
        Ok((vec![span(0, 3), span(3, 4)], false))
    });
    assert_eq!(log, vec!["compile", "all Some(20000)"]);
    assert_eq!(out.mode, "text");
    match out.body {
        SolveBody::Text { matches, truncated, tool } => {
            assert_eq!(matches.len(), 2);
            assert_eq!((matches[0].i, matches[0].l), (0, 1));
            assert_eq!((matches[1].i, matches[1].l), (1, 1));
            assert!(!truncated);
            assert!(tool.is_none());
        }
        other => panic!("unexpected {other:?}"),
    }
}

#[test]
fn non_global_text_mode_asks_for_one_match() {
    let req = request("(x)|(\u{1F600})", "", Some("text"), Some("\u{1F600}x"));
    let (out, log) = drive(
        &req,
        Ok(3),
        |t| {
            assert_eq!(t, "\u{1F600}x");
            Ok(Some(MatchSpan { start: 0, end: 4, groups: vec![None, Some((0, 4))] }))
        },
        no_all,
    );
    assert_eq!(log, vec!["compile", "one Text"]);
    match out.body {
        SolveBody::Text { matches, .. } => {
            assert_eq!(matches.len(), 1);
            assert_eq!((matches[0].i, matches[0].l), (0, 2));
            assert_eq!(matches[0].groups, vec![JsonGroup { i: 0, l: 0 }, JsonGroup { i: 0, l: 2 }]);
        }
        other => panic!("unexpected {other:?}"),
    }
}

#[test]
fn truncated_scan_is_reported() {
    let req = request("a", "g", None, Some("aaa"));
    let (out, _) = drive(&req, Ok(1), no_one, |_, _| Ok((vec![span(0, 1)], true)));
    assert!(matches!(out.body, SolveBody::Text { truncated: true, .. }));
}

#[test]
fn unknown_modifier_answers_before_compiling() {
    let req = request("a", "gz", None, Some("a"));
    let (out, log) = drive(&req, Ok(1), no_one, no_all);
    assert!(log.is_empty());
    match out.body {
        SolveBody::Failed(SolveError::RegexParse { message }) => {
            assert_eq!(message, "Unknown modifier 'z'")
        }
        other => panic!("unexpected {other:?}"),
    }
}

#[test]
fn compile_error_in_tests_mode_is_reported_per_test() {
    let mut req = request("a(", "", Some("tests"), None);
    req.tests = Some((0..1005).map(|_| Test { text: Some("a".to_string()), kind: None }).collect());
    let err = SolveError::RegexParse { message: "Compilation failed: x at offset 2".to_string() };
    let (out, _) = drive(&req, Err(err), no_one, no_all);
    assert_eq!(out.mode, "tests");
    match out.body {
        SolveBody::Tests { entries, truncated_tests } => {
            assert_eq!(entries.len(), 1000);
            assert_eq!(truncated_tests, Some(5));
            for entry in &entries {
                match entry {
                    TestEntry::Error(SolveError::RegexParse { message }) => {
                        assert_eq!(message, "Compilation failed: x at offset 2")
                    }
                    other => panic!("unexpected {other:?}"),
                }
            }
        }
        other => panic!("unexpected {other:?}"),
    }
}

#[test]
fn tests_mode_runs_each_test_and_counts_skipped() {
    let mut req = request("b", "g", Some("tests"), None);
    let texts = ["ab", "xyz", "中b"];
    let mut tests: Vec<Test> =
        texts.iter().map(|t| Test { text: Some(t.to_string()), kind: None }).collect();
    tests.push(Test { text: None, kind: None });
    req.tests = Some(tests);
    let (out, log) = drive(
        &req,
        Ok(1),
        |t| match t.find('b') {
            Some(p) => Ok(Some(span(p, p + 1))),
            None if t.is_empty() => Err(SolveError::MatchLimit),
            None => Ok(None),
        },
        no_all,
    );
    assert_eq!(log, vec!["compile", "one Test(0)", "one Test(1)", "one Test(2)", "one Test(3)"]);
    match out.body {
        SolveBody::Tests { entries, truncated_tests } => {
            assert_eq!(truncated_tests, None);
            assert_eq!(entries.len(), 4);
            assert!(matches!(entries[0], TestEntry::Found { i: 1, l: 1 }));
            assert!(matches!(entries[1], TestEntry::NotFound));
            assert!(matches!(entries[2], TestEntry::Found { i: 1, l: 1 }));
            assert!(matches!(entries[3], TestEntry::Error(SolveError::MatchLimit)));
        }
        other => panic!("unexpected {other:?}"),
    }
}

#[test]
fn tests_mode_caps_the_number_of_tests() {
    let mut req = request("a", "", Some("tests"), None);
    req.tests = Some((0..1003).map(|_| Test { text: Some("a".to_string()), kind: None }).collect());
    let (out, log) = drive(&req, Ok(1), |_| Ok(None), no_all);
    assert_eq!(log.len(), 1 + 1000);
    match out.body {
        SolveBody::Tests { entries, truncated_tests } => {
            assert_eq!(entries.len(), 1000);
            assert_eq!(truncated_tests, Some(3));
        }
        other => panic!("unexpected {other:?}"),
    }
}

#[test]
fn tests_mode_without_tests() {
    let req = request("a", "", Some("tests"), None);
    let (out, log) = drive(&req, Ok(1), no_one, no_all);
    assert_eq!(log, vec!["compile"]);
    assert!(matches!(out.body, SolveBody::Tests { ref entries, truncated_tests: None } if entries.is_empty()));
}

#[test]
fn replace_tool_reuses_a_complete_global_scan() {
    let mut req = request("(\\w+)@(\\w+)", "g", None, Some("bob@host x"));
    req.tool = tool("replace", "$2:$1");
    let (out, log) = drive(&req, Ok(3), no_one, |_, _| {
        Ok((vec![MatchSpan { start: 0, end: 8, groups: vec![Some((0, 3)), Some((4, 8))] }], false))
    });
    assert_eq!(log, vec!["compile", "all Some(20000)"]);
    match out.body {
        SolveBody::Text { matches, tool: Some(t), .. } => {
            assert_eq!(matches.len(), 1);
            assert_eq!(t.id, "replace");
            assert_eq!(t.result, "host:bob x");
        }
        other => panic!("unexpected {other:?}"),
    }
}

#[test]
fn tool_scans_again_when_the_pattern_is_not_global() {
    let mut req = request("\\d+", "", None, Some("a1b22c333"));
    req.tool = tool("list", "<$0>");
    let (out, log) = drive(
        &req,
        Ok(1),
        |_| Ok(Some(span(1, 2))),
        |_, max| {
            assert_eq!(max, None);
            Ok((vec![span(1, 2), span(3, 5), span(6, 9)], false))
        },
    );
    assert_eq!(log, vec!["compile", "one Text", "all None"]);
    match out.body {
        SolveBody::Text { matches, truncated, tool: Some(t) } => {
            assert_eq!(matches.len(), 1);
            assert!(!truncated);
            assert_eq!(t.result, "<1><22><333>");
        }
        other => panic!("unexpected {other:?}"),
    }
}

#[test]
fn tool_scans_again_when_the_display_scan_was_truncated() {
    let mut req = request("a", "g", None, Some("aaa"));
    req.tool = tool("replace", "b");
    let (out, log) = drive(&req, Ok(1), no_one, |_, max| match max {
        Some(_) => Ok((vec![span(0, 1)], true)),
        None => Ok((vec![span(0, 1), span(1, 2), span(2, 3)], false)),
    });
    assert_eq!(log, vec!["compile", "all Some(20000)", "all None"]);
    match out.body {
        SolveBody::Text { matches, truncated: true, tool: Some(t) } => {
            assert_eq!(matches.len(), 1);
            assert_eq!(t.result, "bbb");
        }
        other => panic!("unexpected {other:?}"),
    }
}

#[test]
fn other_tools_answer_empty() {
    let mut req = request("a", "g", None, Some("a"));
    req.tool = tool("details", "");
    let (out, _) = drive(&req, Ok(1), no_one, |_, _| Ok((vec![span(0, 1)], false)));
    match out.body {
        SolveBody::Text { tool: Some(t), .. } => {
            assert_eq!(t.id, "details");
            assert_eq!(t.result, "");
        }
        other => panic!("unexpected {other:?}"),
    }
    let mut req = request("a", "g", None, Some("a"));
    req.tool = Some(Tool { id: None, input: None });
    let (out, _) = drive(&req, Ok(1), no_one, |_, _| Ok((vec![], false)));
    match out.body {
        SolveBody::Text { tool: Some(t), .. } => assert_eq!((t.id.as_str(), t.result.as_str()), ("", "")),
        other => panic!("unexpected {other:?}"),
    }
}

#[test]
fn engine_errors_answer_without_matches() {
    let req = request("(a+)+$", "g", None, Some("aaab"));
    let (out, _) = drive(&req, Ok(2), no_one, |_, _| Err(SolveError::MatchLimit));
    assert!(matches!(out.body, SolveBody::Failed(SolveError::MatchLimit)));
    let mut req = request("a", "", None, Some("a"));
    req.tool = tool("replace", "x");
    let (out, _) = drive(&req, Ok(1), |_| Ok(Some(span(0, 1))), |_, _| Err(SolveError::ResultTooLarge));
    assert!(matches!(out.body, SolveBody::Failed(SolveError::ResultTooLarge)));
}

#[test]
fn tool_budget_error_drops_the_matches() {
    let mut req = request("a", "g", None, Some("aa"));
    req.tool = tool("list", &"x".repeat(3 * 1024 * 1024));
    let (out, _) = drive(&req, Ok(1), no_one, |_, _| Ok((vec![span(0, 1), span(1, 2)], false)));
    assert!(matches!(out.body, SolveBody::Failed(SolveError::ResultTooLarge)));
}

#[test]
fn events_out_of_order_are_refused() {
    let req = request("a", "g", None, Some("ab"));
    let mut solver = Solver::new(&req);
    assert!(!solver.accepts_event(&SolveEvent::Compiled(Ok(1))));
    assert!(solver.accepts_event(&SolveEvent::Start));
    solver.next(SolveEvent::Start);
    solver.next(SolveEvent::Compiled(Ok(1)));
    // a span that cuts a char or leaves the text is refused
    assert!(!solver.accepts_event(&SolveEvent::All(Ok((vec![span(1, 9)], false)))));
    assert!(!solver.accepts_event(&SolveEvent::One(Ok(None))));
    assert!(solver.accepts_event(&SolveEvent::All(Ok((vec![span(0, 1)], false)))));
}
