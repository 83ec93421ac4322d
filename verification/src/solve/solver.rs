//! `regex/solve` orchestration: which engine calls a request needs, in which
//! order, and what the frontend is answered. The caller performs the engine
//! calls (compile, first match, global scan) and feeds their results back;
//! the solver decides everything else.
//!
//! Solve-level errors are answered inside the success envelope, as
//! `data.error`.

use vstd::prelude::*;
use vstd::string::StringSliceAdditionalSpecFns;
use vstd::utf8::*;

use crate::config::{MAX_MATCHES, MAX_RESPONSE_BYTES, MAX_TESTS};
use crate::solve::engine::{
    compile_error_message,
    compile_options,
    list_result,
    options_spec,
    replace_result,
    span_valid,
    span_wf,
    spans_valid,
    spans_wf,
    CompileOptions,
    CompiledRegex,
    MatchSpan,
};
use crate::solve::errors::SolveError;
use crate::solve::offsets::{lemma_utf16_offset_mono, utf16_offset, Utf16Indexer};
use crate::solve::report::{json_match, reports_match, JsonMatch};
use crate::text::str_eq;

verus! {

/// The `tool` of a solve request.
#[derive(Debug)]
pub struct Tool {
    pub id: Option<String>,
    /// The tool input when it is a string (the replacement template).
    pub input: Option<String>,
}

/// One entry of a `tests` mode request.
#[derive(Debug)]
pub struct Test {
    pub text: Option<String>,
    pub kind: Option<String>,
}

/// The parts of a solve request the rules read. The JSON `id`s, echoed back
/// untouched, stay with the caller.
#[derive(Debug)]
pub struct SolveRequest {
    pub pattern: String,
    pub flags: String,
    pub mode: Option<String>,
    pub text: Option<String>,
    pub tool: Option<Tool>,
    pub tests: Option<Vec<Test>>,
}

/// Result of one test in `tests` mode.
#[derive(Debug)]
pub enum TestEntry {
    /// Matched at UTF-16 offset `i`, length `l`.
    Found { i: usize, l: usize },
    /// No match: the entry carries no `i`/`l` at all.
    NotFound,
    /// The match attempt failed.
    Error(SolveError),
}

/// The tool part of a text-mode answer: `{id, result}`.
#[derive(Debug)]
pub struct ToolResult {
    pub id: String,
    pub result: String,
}

/// The rule-dependent part of the `data` payload.
#[derive(Debug)]
pub enum SolveBody {
    /// `tests` mode: one entry per test run, in order; `truncated_tests`
    /// counts the tests past `MAX_TESTS` that were not run, when there are any.
    Tests { entries: Vec<TestEntry>, truncated_tests: Option<usize> },
    /// Text mode: the matches, `truncated` when the match cap stopped the
    /// scan, and the tool result when a tool was asked for.
    Text { matches: Vec<JsonMatch>, truncated: bool, tool: Option<ToolResult> },
    /// `matches: []` with `error`.
    Failed(SolveError),
}

/// The answer to a solve request, without the caller-held `id`, timestamps
/// and timing.
#[derive(Debug)]
pub struct SolveOutput {
    /// The request mode, `"text"` when absent.
    pub mode: String,
    pub body: SolveBody,
}

/// Which text an engine call runs on.
#[derive(Debug, Clone, Copy)]
pub enum Subject {
    /// The request `text` (empty when absent).
    Text,
    /// The text of test `k` (empty when absent).
    Test(usize),
}

/// What the caller is asked to do next.
#[derive(Debug)]
pub enum SolveAction {
    /// Compile the request pattern with these options.
    Compile(CompileOptions),
    /// Find the first match in the subject.
    MatchOne(Subject),
    /// Scan the whole text globally, capped at `max_matches` when given.
    MatchAll { max_matches: Option<usize> },
    /// The answer.
    Done(SolveOutput),
}

/// What the caller reports back.
#[derive(Debug)]
pub enum SolveEvent {
    /// Begin solving.
    Start,
    /// Compilation result: the ovector pair count (groups + 1) or an error.
    Compiled(Result<usize, SolveError>),
    /// First-match result.
    One(Result<Option<MatchSpan>, SolveError>),
    /// Global scan result: spans and whether the cap truncated them.
    All(Result<(Vec<MatchSpan>, bool), SolveError>),
}

/// Where a solve stands: which event it waits for.
#[derive(Debug, Clone, Copy)]
pub enum Stage {
    Start,
    Compiling,
    Testing,
    Displaying,
    ToolScanning,
    Finished,
}

/// The text of an optional string, empty when absent.
pub open spec fn opt_chars(s: Option<String>) -> Seq<char> {
    match s {
        Some(t) => t@,
        None => Seq::empty(),
    }
}

/// The request mode, `"text"` when absent.
pub open spec fn mode_chars(req: SolveRequest) -> Seq<char> {
    match req.mode {
        Some(m) => m@,
        None => "text"@,
    }
}

/// Whether the request runs in `tests` mode; any other mode is text mode.
pub open spec fn is_tests_mode(req: SolveRequest) -> bool {
    mode_chars(req) == "tests"@
}

/// The tests of the request, none when absent.
pub open spec fn request_tests(req: SolveRequest) -> Seq<Test> {
    match req.tests {
        Some(v) => v@,
        None => Seq::empty(),
    }
}

/// How many tests are run: at most `MAX_TESTS`.
pub open spec fn tests_run(req: SolveRequest) -> nat {
    let n = request_tests(req).len();
    if n <= MAX_TESTS {
        n
    } else {
        MAX_TESTS as nat
    }
}

/// How many tests past `MAX_TESTS` are not run.
pub open spec fn tests_skipped(req: SolveRequest) -> nat {
    let n = request_tests(req).len();
    if n <= MAX_TESTS {
        0
    } else {
        (n - MAX_TESTS) as nat
    }
}

/// The skipped count an answer reports: present only when tests were
/// skipped.
pub open spec fn skipped_report(req: SolveRequest) -> Option<usize> {
    if tests_skipped(req) > 0 {
        Some(tests_skipped(req) as usize)
    } else {
        None
    }
}

/// The text an engine call runs on: the request text, or the text of a
/// test (empty when absent or past the tests).
pub open spec fn subject_chars(req: SolveRequest, s: Subject) -> Seq<char> {
    match s {
        Subject::Text => opt_chars(req.text),
        Subject::Test(k) => if k < request_tests(req).len() {
            opt_chars(request_tests(req)[k as int].text)
        } else {
            Seq::empty()
        },
    }
}

/// UTF-8 bytes of the text of `s`.
pub open spec fn subject_bytes(req: SolveRequest, s: Subject) -> Seq<u8> {
    encode_utf8(subject_chars(req, s))
}

/// The requested tool id (`""` when the tool has none), `None` without a
/// tool.
pub open spec fn tool_id_chars(req: SolveRequest) -> Option<Seq<char>> {
    match req.tool {
        Some(t) => Some(opt_chars(t.id)),
        None => None,
    }
}

/// The replacement template of the tool, `""` when absent or not a string.
pub open spec fn tool_input_chars(req: SolveRequest) -> Seq<char> {
    match req.tool {
        Some(t) => opt_chars(t.input),
        None => Seq::empty(),
    }
}

/// The tools that work on match spans.
pub open spec fn is_span_tool(id: Seq<char>) -> bool {
    id == "replace"@ || id == "list"@
}

/// What the tool `id` gives over `spans`: the `replace` or `list` output,
/// `None` when that is over the result budget, and `""` for any other tool.
pub open spec fn tool_output(
    t: Seq<u8>,
    ngroups: nat,
    spans: Seq<MatchSpan>,
    id: Seq<char>,
    repl: Seq<char>,
) -> Option<Seq<char>> {
    if id == "replace"@ {
        replace_result(t, ngroups, spans, repl)
    } else if id == "list"@ {
        list_result(t, ngroups, spans, repl)
    } else {
        Some(Seq::empty())
    }
}

/// `e` is the test entry for the first-match result `r` over the text `t`.
pub open spec fn entry_reports(t: Seq<u8>, r: Result<Option<MatchSpan>, SolveError>, e: TestEntry) -> bool {
    match r {
        Ok(Some(sp)) => e matches TestEntry::Found { i, l } && i == utf16_offset(t, sp.start as int)
            && l == utf16_offset(t, sp.end as int) - utf16_offset(t, sp.start as int),
        Ok(None) => e is NotFound,
        Err(x) => e == TestEntry::Error(x),
    }
}

/// Each entry reports the first-match result handed in for its test.
pub open spec fn entries_report(
    req: SolveRequest,
    fed: Seq<Result<Option<MatchSpan>, SolveError>>,
    es: Seq<TestEntry>,
) -> bool {
    forall|k: int|
        #![trigger es[k]]
        0 <= k < es.len() && k < fed.len() ==> entry_reports(
            subject_bytes(req, Subject::Test(k as usize)),
            fed[k],
            es[k],
        )
}

/// `after` is `before` with the entry for `r` over `t` appended.
pub open spec fn records_entry(
    before: Seq<TestEntry>,
    after: Seq<TestEntry>,
    t: Seq<u8>,
    r: Result<Option<MatchSpan>, SolveError>,
) -> bool {
    &&& after.len() == before.len() + 1
    &&& after.take(before.len() as int) == before
    &&& entry_reports(t, r, after.last())
}

/// `ms` reports `spans` one for one, in order.
pub open spec fn reports_all(t: Seq<u8>, spans: Seq<MatchSpan>, ms: Seq<JsonMatch>) -> bool {
    &&& ms.len() == spans.len()
    &&& forall|k: int| #![trigger ms[k]] 0 <= k < spans.len() ==> reports_match(t, &spans[k], &ms[k])
}

/// Two errors say the same: same kind, same message text, same code.
pub open spec fn same_error(a: SolveError, b: SolveError) -> bool {
    match a {
        SolveError::RegexParse { message: m } => b matches SolveError::RegexParse { message: n }
            && m@ == n@,
        SolveError::Internal { code: c, message: m } => b matches SolveError::Internal {
            code: d,
            message: n,
        } && c == d && m@ == n@,
        _ => a == b,
    }
}

/// `out` answers a request whose pattern did not compile with an error
/// that satisfies `ok`: in `tests` mode one error entry per run test (and
/// the skipped count), otherwise no matches and the error.
pub open spec fn answers_compile_error(
    req: SolveRequest,
    out: SolveOutput,
    ok: spec_fn(SolveError) -> bool,
) -> bool {
    &&& out.mode@ == mode_chars(req)
    &&& if is_tests_mode(req) {
        &&& out.body matches SolveBody::Tests { entries, truncated_tests }
        &&& entries@.len() == tests_run(req)
        &&& truncated_tests == skipped_report(req)
        &&& forall|k: int|
            #![trigger entries@[k]]
            0 <= k < entries@.len() ==> (entries@[k] matches TestEntry::Error(x) && ok(x))
    } else {
        out.body matches SolveBody::Failed(x) && ok(x)
    }
}

/// The error of a text-mode failure answer: no matches and the error.
pub open spec fn text_failure_of(req: SolveRequest, out: SolveOutput) -> Option<SolveError> {
    if out.mode@ == mode_chars(req) {
        match out.body {
            SolveBody::Failed(error) => Some(error),
            _ => None,
        }
    } else {
        None
    }
}

/// The entries of a `tests` mode answer, which reports the skipped count.
pub open spec fn tests_answer(req: SolveRequest, out: SolveOutput) -> Option<Seq<TestEntry>> {
    if out.mode@ == mode_chars(req) {
        match out.body {
            SolveBody::Tests { entries, truncated_tests } => if truncated_tests == skipped_report(
                req,
            ) {
                Some(entries@)
            } else {
                None
            },
            _ => None,
        }
    } else {
        None
    }
}

/// Matches, truncation and tool result of a text-mode answer.
pub open spec fn text_answer(req: SolveRequest, out: SolveOutput) -> Option<
    (Seq<JsonMatch>, bool, Option<ToolResult>),
> {
    if out.mode@ == mode_chars(req) {
        match out.body {
            SolveBody::Text { matches, truncated, tool } => Some((matches@, truncated, tool)),
            _ => None,
        }
    } else {
        None
    }
}

/// The tool part of an answer is `{id, result}`.
pub open spec fn tool_result_is(tr: ToolResult, id: Seq<char>, result: Seq<char>) -> bool {
    tr.id@ == id && tr.result@ == result
}

/// Spans and truncation of a first-match result: the match, if any, and
/// never truncated.
pub open spec fn one_spans(r: Result<Option<MatchSpan>, SolveError>) -> Result<
    (Seq<MatchSpan>, bool),
    SolveError,
> {
    match r {
        Ok(Some(sp)) => Ok((seq![sp], false)),
        Ok(None) => Ok((Seq::empty(), false)),
        Err(e) => Err(e),
    }
}

/// Spans and truncation of a global scan result.
pub open spec fn all_spans(r: Result<(Vec<MatchSpan>, bool), SolveError>) -> Result<
    (Seq<MatchSpan>, bool),
    SolveError,
> {
    match r {
        Ok((v, tr)) => Ok((v@, tr)),
        Err(e) => Err(e),
    }
}

/// The answer with the result of the requested tool over `tool_spans`:
/// the text-mode answer with `truncated` and `{id, result}`, or the budget
/// error when the tool output is over it.
pub open spec fn tool_answer(
    req: SolveRequest,
    ngroups: nat,
    tool_spans: Seq<MatchSpan>,
    truncated: bool,
    out: SolveOutput,
) -> bool {
    let t = subject_bytes(req, Subject::Text);
    match tool_id_chars(req) {
        Some(id) => match tool_output(t, ngroups, tool_spans, id, tool_input_chars(req)) {
            Some(result) => text_answer(req, out) matches Some((_, tr, Some(tool))) && tr
                == truncated && tool_result_is(tool, id, result),
            None => text_failure_of(req, out) == Some(SolveError::ResultTooLarge),
        },
        None => false,
    }
}

/// First step: the pattern size and flags are checked, then the pattern is
/// to be compiled with the options the flags select.
pub open spec fn start_step<'a>(pre: Solver<'a>, post: Solver<'a>, a: SolveAction) -> bool {
    let req = pre.request();
    let flags = req.flags@;
    &&& post.ngroups() == pre.ngroups()
    &&& match compile_error_message(encode_utf8(req.pattern@).len(), flags) {
        None => {
            &&& a == SolveAction::Compile(options_spec(flags))
            &&& post.stage() is Compiling
            &&& post.global() == options_spec(flags).global
        },
        Some(msg) => {
            &&& post.stage() is Finished
            &&& a matches SolveAction::Done(out)
            &&& answers_compile_error(
                req,
                out,
                |x: SolveError| x matches SolveError::RegexParse { message } && message@ == msg,
            )
        },
    }
}

/// After compilation: the error answer, or the first engine call of the
/// mode (the first test; the global scan capped at `MAX_MATCHES`; or the
/// first match).
pub open spec fn compiled_step<'a>(
    pre: Solver<'a>,
    post: Solver<'a>,
    r: Result<usize, SolveError>,
    a: SolveAction,
) -> bool {
    let req = pre.request();
    &&& post.global() == pre.global()
    &&& match r {
        Err(e) => post.stage() is Finished && (a matches SolveAction::Done(out)
            && answers_compile_error(req, out, |x: SolveError| same_error(x, e))),
        Ok(pairs) => {
            &&& post.ngroups() == (if pairs == 0 {
                0
            } else {
                pairs - 1
            })
            &&& if is_tests_mode(req) {
                if tests_run(req) == 0 {
                    &&& post.stage() is Finished
                    &&& a matches SolveAction::Done(out)
                    &&& tests_answer(req, out) == Some(Seq::<TestEntry>::empty())
                } else {
                    &&& post.stage() is Testing
                    &&& post.next_test() == 0
                    &&& post.entries().len() == 0
                    &&& post.fed().len() == 0
                    &&& a == SolveAction::MatchOne(Subject::Test(0))
                }
            } else {
                &&& post.stage() is Displaying
                &&& a == if pre.global() {
                    SolveAction::MatchAll { max_matches: Some(MAX_MATCHES) }
                } else {
                    SolveAction::MatchOne(Subject::Text)
                }
            }
        },
    }
}

/// A test's first match is recorded as its entry; then the next test, or
/// the answer with all entries.
pub open spec fn test_step<'a>(
    pre: Solver<'a>,
    post: Solver<'a>,
    r: Result<Option<MatchSpan>, SolveError>,
    a: SolveAction,
) -> bool {
    let req = pre.request();
    let k = pre.next_test();
    let t = subject_bytes(req, Subject::Test(k as usize));
    &&& post.global() == pre.global()
    &&& post.ngroups() == pre.ngroups()
    &&& post.fed() == pre.fed().push(r)
    &&& if k + 1 < tests_run(req) {
        &&& post.stage() is Testing
        &&& post.next_test() == k + 1
        &&& post.entries().len() == k + 1
        &&& entries_report(req, post.fed(), post.entries())
        &&& a == SolveAction::MatchOne(Subject::Test((k + 1) as usize))
        &&& records_entry(pre.entries(), post.entries(), t, r)
    } else {
        // the answer holds one entry per run test
        &&& post.stage() is Finished
        &&& a matches SolveAction::Done(out)
        &&& tests_answer(req, out) matches Some(es)
        &&& es.len() == tests_run(req)
        &&& post.fed().len() == es.len()
        &&& entries_report(req, post.fed(), es)
        &&& records_entry(pre.entries(), es, t, r)
    }
}

/// The matches to display are reported. Without a tool that is the answer;
/// a `replace` or `list` tool reuses them when they are the complete global
/// scan and otherwise asks for an uncapped scan of its own; any other tool
/// gives `""`.
pub open spec fn display_step<'a>(
    pre: Solver<'a>,
    post: Solver<'a>,
    r: Result<(Seq<MatchSpan>, bool), SolveError>,
    a: SolveAction,
) -> bool {
    let req = pre.request();
    let t = subject_bytes(req, Subject::Text);
    &&& post.global() == pre.global()
    &&& post.ngroups() == pre.ngroups()
    &&& match r {
        Err(e) => post.stage() is Finished && (a matches SolveAction::Done(out)
            && text_failure_of(req, out) == Some(e)),
        Ok((spans, tr)) => match tool_id_chars(req) {
            None => {
                &&& post.stage() is Finished
                &&& a matches SolveAction::Done(out)
                &&& text_answer(req, out) matches Some((ms, tr2, None))
                &&& reports_all(t, spans, ms)
                &&& tr2 == tr
            },
            Some(id) => if is_span_tool(id) && (!pre.global() || tr) {
                &&& post.stage() is ToolScanning
                &&& a == SolveAction::MatchAll { max_matches: None }
                &&& reports_all(t, spans, post.matches())
                &&& post.truncated() == tr
            } else {
                &&& post.stage() is Finished
                &&& a matches SolveAction::Done(out)
                &&& (text_answer(req, out) matches Some((ms, _, _)) ==> reports_all(t, spans, ms))
                &&& tool_answer(req, pre.ngroups(), spans, tr, out)
            },
        },
    }
}

/// The tool's own scan arrived: the answer keeps the displayed matches and
/// adds the tool result.
pub open spec fn tool_step<'a>(
    pre: Solver<'a>,
    post: Solver<'a>,
    r: Result<(Seq<MatchSpan>, bool), SolveError>,
    a: SolveAction,
) -> bool {
    let req = pre.request();
    &&& post.global() == pre.global()
    &&& post.ngroups() == pre.ngroups()
    &&& post.stage() is Finished
    &&& a matches SolveAction::Done(out)
    &&& match r {
        Err(e) => text_failure_of(req, out) == Some(e),
        Ok((spans, _)) => {
            &&& (text_answer(req, out) matches Some((ms, _, _)) ==> ms == pre.matches())
            &&& tool_answer(req, pre.ngroups(), spans, pre.truncated(), out)
        },
    }
}

/// One step of a solve: the solver in state `pre` receives `ev`, moves to
/// `post` and asks for `a`. Every step brings the answer closer.
pub open spec fn transition<'a>(
    pre: Solver<'a>,
    post: Solver<'a>,
    ev: SolveEvent,
    a: SolveAction,
) -> bool {
    &&& post.request() == pre.request()
    &&& (a is Done) == (post.stage() is Finished)
    &&& post.steps_left() < pre.steps_left()
    &&& match ev {
        SolveEvent::Start => start_step(pre, post, a),
        SolveEvent::Compiled(r) => compiled_step(pre, post, r, a),
        SolveEvent::One(r) => if pre.stage() is Testing {
            test_step(pre, post, r, a)
        } else {
            display_step(pre, post, one_spans(r), a)
        },
        SolveEvent::All(r) => if pre.stage() is Displaying {
            display_step(pre, post, all_spans(r), a)
        } else {
            tool_step(pre, post, all_spans(r), a)
        },
    }
}

fn empty_str() -> (r: &'static str)
    ensures
        r@ == Seq::<char>::empty(),
{
    proof {
        reveal_strlit("");
    }
    ""
}

fn opt_str<'b>(s: &'b Option<String>) -> (r: &'b str)
    ensures
        r@ == opt_chars(*s),
{
    match s {
        Some(t) => t.as_str(),
        None => empty_str(),
    }
}

fn text_of<'b>(req: &'b SolveRequest) -> (r: &'b str)
    ensures
        r@ == subject_chars(*req, Subject::Text),
{
    opt_str(&req.text)
}

fn test_text_of<'b>(req: &'b SolveRequest, k: usize) -> (r: &'b str)
    ensures
        r@ == subject_chars(*req, Subject::Test(k)),
{
    match &req.tests {
        Some(v) => if k < v.len() {
            opt_str(&v[k].text)
        } else {
            empty_str()
        },
        None => empty_str(),
    }
}

fn mode_string(req: &SolveRequest) -> (r: String)
    ensures
        r@ == mode_chars(*req),
{
    match &req.mode {
        Some(m) => m.clone(),
        None => "text".to_owned(),
    }
}

fn tests_mode(req: &SolveRequest) -> (r: bool)
    ensures
        r == is_tests_mode(*req),
{
    match &req.mode {
        Some(m) => str_eq(m.as_str(), "tests"),
        None => {
            proof {
                reveal_strlit("text");
                reveal_strlit("tests");
                assert("text"@.len() != "tests"@.len());
            }
            false
        },
    }
}

/// How many tests are run, and the skipped count to report.
fn test_counts(req: &SolveRequest) -> (r: (usize, Option<usize>))
    ensures
        r.0 == tests_run(*req),
        r.1 == skipped_report(*req),
{
    let n = match &req.tests {
        Some(v) => v.len(),
        None => 0,
    };
    if n <= MAX_TESTS {
        (n, None)
    } else {
        (MAX_TESTS, Some(n - MAX_TESTS))
    }
}

/// A copy of an error.
fn copy_error(e: &SolveError) -> (r: SolveError)
    ensures
        same_error(r, *e),
{
    match e {
        SolveError::RegexParse { message } => SolveError::RegexParse { message: message.clone() },
        SolveError::MatchLimit => SolveError::MatchLimit,
        SolveError::DepthLimit => SolveError::DepthLimit,
        SolveError::JitStackLimit => SolveError::JitStackLimit,
        SolveError::BadUtf8 => SolveError::BadUtf8,
        SolveError::ResultTooLarge => SolveError::ResultTooLarge,
        SolveError::Internal { code, message } => SolveError::Internal {
            code: *code,
            message: message.clone(),
        },
    }
}

/// Report every span with UTF-16 offsets.
fn report_all(spans: &[MatchSpan], ix: &Utf16Indexer) -> (ms: Vec<JsonMatch>)
    requires
        spans_wf(ix.text(), spans@),
    ensures
        reports_all(ix.text(), spans@, ms@),
{
    let mut ms: Vec<JsonMatch> = Vec::new();
    let mut k: usize = 0;
    while k < spans.len()
        invariant
            spans_wf(ix.text(), spans@),
            k <= spans@.len(),
            ms@.len() == k,
            forall|j: int| #![trigger ms@[j]] 0 <= j < k ==> reports_match(ix.text(), &spans@[j], &ms@[j]),
        decreases spans@.len() - k,
    {
        assert(span_wf(ix.text(), &spans@[k as int]));
        let m = json_match(&spans[k], ix);
        ms.push(m);
        k = k + 1;
    }
    ms
}

/// A first-match result as a global scan result.
fn one_as_all(r: Result<Option<MatchSpan>, SolveError>) -> (r2: Result<(Vec<MatchSpan>, bool), SolveError>)
    ensures
        all_spans(r2) == one_spans(r),
{
    match r {
        Ok(Some(sp)) => {
            let ghost g = sp;
            let mut v: Vec<MatchSpan> = Vec::new();
            v.push(sp);
            assert(v@ =~= seq![g]);
            Ok((v, false))
        },
        Ok(None) => {
            let v: Vec<MatchSpan> = Vec::new();
            assert(v@ =~= Seq::<MatchSpan>::empty());
            Ok((v, false))
        },
        Err(e) => Err(e),
    }
}

/// The decisions of one solve request, step by step. The caller starts it
/// with `SolveEvent::Start`, performs each action it is asked for and hands
/// back the engine's result, until the answer comes (`SolveAction::Done`).
pub struct Solver<'a> {
    req: &'a SolveRequest,
    stage: Stage,
    global: bool,
    re: CompiledRegex,
    next_test: usize,
    entries: Vec<TestEntry>,
    matches: Vec<JsonMatch>,
    truncated: bool,
    fed: Ghost<Seq<Result<Option<MatchSpan>, SolveError>>>,
}

impl<'a> Solver<'a> {
    /// The first-match results handed in for the tests so far, in order.
    pub closed spec fn fed(&self) -> Seq<Result<Option<MatchSpan>, SolveError>> {
        self.fed@
    }

    /// The request being solved.
    pub closed spec fn request(&self) -> SolveRequest {
        *self.req
    }

    /// Which event the solver waits for.
    pub closed spec fn stage(&self) -> Stage {
        self.stage
    }

    /// Whether the pattern matches globally (`g` flag).
    pub closed spec fn global(&self) -> bool {
        self.global
    }

    /// Capturing groups of the compiled pattern.
    pub closed spec fn ngroups(&self) -> nat {
        self.re.spec_ngroups() as nat
    }

    /// The test whose first match is awaited.
    pub closed spec fn next_test(&self) -> nat {
        self.next_test as nat
    }

    /// The test entries found so far.
    pub closed spec fn entries(&self) -> Seq<TestEntry> {
        self.entries@
    }

    /// The reported matches kept while the tool's own scan runs.
    pub closed spec fn matches(&self) -> Seq<JsonMatch> {
        self.matches@
    }

    /// Whether the kept matches were cut at the match cap.
    pub closed spec fn truncated(&self) -> bool {
        self.truncated
    }

    #[verifier::type_invariant]
    spec fn solver_wf(&self) -> bool {
        &&& self.stage is Testing ==> {
            &&& is_tests_mode(*self.req)
            &&& self.next_test < tests_run(*self.req)
            &&& self.entries@.len() == self.next_test
            &&& self.fed@.len() == self.next_test
            &&& entries_report(*self.req, self.fed@, self.entries@)
        }
        &&& self.stage is ToolScanning ==> (tool_id_chars(*self.req) matches Some(id)
            && is_span_tool(id))
    }

    /// Upper bound on the steps left before the answer.
    pub open spec fn steps_left(&self) -> nat {
        let n = tests_run(self.request());
        match self.stage() {
            Stage::Start => n + 4,
            Stage::Compiling => n + 3,
            Stage::Testing => if self.next_test() < n {
                (n - self.next_test()) as nat
            } else {
                0
            },
            Stage::Displaying => 2,
            Stage::ToolScanning => 1,
            Stage::Finished => 0,
        }
    }

    /// Whether `ev` is the event the solver waits for, with match spans that
    /// lie in the text they were found in.
    pub open spec fn accepts(&self, ev: &SolveEvent) -> bool {
        let req = self.request();
        let text = subject_bytes(req, Subject::Text);
        match self.stage() {
            Stage::Start => *ev is Start,
            Stage::Compiling => *ev is Compiled,
            Stage::Testing => *ev matches SolveEvent::One(r) && (r matches Ok(Some(sp))
                ==> span_wf(subject_bytes(req, Subject::Test(self.next_test() as usize)), &sp)),
            Stage::Displaying => if self.global() {
                *ev matches SolveEvent::All(r) && (r matches Ok((v, _)) ==> spans_wf(text, v@))
            } else {
                *ev matches SolveEvent::One(r) && (r matches Ok(Some(sp)) ==> span_wf(text, &sp))
            },
            Stage::ToolScanning => *ev matches SolveEvent::All(r) && (r matches Ok((v, _))
                ==> spans_wf(text, v@)),
            Stage::Finished => false,
        }
    }

    /// A solver for `req`, waiting for `SolveEvent::Start`.
    pub fn new(req: &'a SolveRequest) -> (s: Self)
        ensures
            s.request() == *req,
            s.stage() is Start,
    {
        Solver {
            req,
            stage: Stage::Start,
            global: false,
            re: CompiledRegex::new(0, false),
            next_test: 0,
            entries: Vec::new(),
            matches: Vec::new(),
            truncated: false,
            fed: Ghost(Seq::empty()),
        }
    }

    /// The text an engine call runs on.
    pub fn subject(&self, s: Subject) -> (r: &'a str)
        ensures
            r@ == subject_chars(self.request(), s),
    {
        let req: &'a SolveRequest = self.req;
        match s {
            Subject::Text => text_of(req),
            Subject::Test(k) => test_text_of(req, k),
        }
    }

    /// Whether `ev` is the event the solver waits for, with match spans
    /// that lie in their text: what `next` needs.
    pub fn accepts_event(&self, ev: &SolveEvent) -> (r: bool)
        ensures
            r == self.accepts(ev),
    {
        let req: &'a SolveRequest = self.req;
        match self.stage {
            Stage::Start => match ev {
                SolveEvent::Start => true,
                _ => false,
            },
            Stage::Compiling => match ev {
                SolveEvent::Compiled(_) => true,
                _ => false,
            },
            Stage::Testing => match ev {
                SolveEvent::One(Ok(Some(sp))) => span_valid(test_text_of(req, self.next_test), sp),
                SolveEvent::One(_) => true,
                _ => false,
            },
            Stage::Displaying => if self.global {
                match ev {
                    SolveEvent::All(Ok((v, _))) => spans_valid(text_of(req), v.as_slice()),
                    SolveEvent::All(_) => true,
                    _ => false,
                }
            } else {
                match ev {
                    SolveEvent::One(Ok(Some(sp))) => span_valid(text_of(req), sp),
                    SolveEvent::One(_) => true,
                    _ => false,
                }
            },
            Stage::ToolScanning => match ev {
                SolveEvent::All(Ok((v, _))) => spans_valid(text_of(req), v.as_slice()),
                SolveEvent::All(_) => true,
                _ => false,
            },
            Stage::Finished => false,
        }
    }

    /// Take the next step: decide on `ev` and say what to do next.
    pub fn next(&mut self, ev: SolveEvent) -> (a: SolveAction)
        requires
            old(self).accepts(&ev),
        ensures
            transition(*old(self), *final(self), ev, a),
    {
        match ev {
            SolveEvent::Start => self.on_start(),
            SolveEvent::Compiled(r) => self.on_compiled(r),
            SolveEvent::One(r) => match self.stage {
                Stage::Testing => self.on_test_result(r),
                _ => self.on_display(one_as_all(r)),
            },
            SolveEvent::All(r) => match self.stage {
                Stage::Displaying => self.on_display(r),
                _ => self.on_tool_spans(r),
            },
        }
    }

    /// The answer when the pattern did not compile.
    fn compile_failure(&self, e: SolveError) -> (out: SolveOutput)
        ensures
            answers_compile_error(self.request(), out, |x: SolveError| same_error(x, e)),
            !is_tests_mode(self.request()) ==> out.body == SolveBody::Failed(e),
    {
        let req: &'a SolveRequest = self.req;
        let mode = mode_string(req);
        if tests_mode(req) {
            let (run, skipped) = test_counts(req);
            let mut entries: Vec<TestEntry> = Vec::new();
            let mut k: usize = 0;
            while k < run
                invariant
                    k <= run,
                    entries@.len() == k,
                    forall|j: int|
                        #![trigger entries@[j]]
                        0 <= j < k ==> (entries@[j] matches TestEntry::Error(x) && same_error(x, e)),
                decreases run - k,
            {
                entries.push(TestEntry::Error(copy_error(&e)));
                k = k + 1;
            }
            SolveOutput { mode, body: SolveBody::Tests { entries, truncated_tests: skipped } }
        } else {
            SolveOutput { mode, body: SolveBody::Failed(e) }
        }
    }

    /// The text-mode answer for an error.
    fn text_failure(&self, e: SolveError) -> (out: SolveOutput)
        ensures
            text_failure_of(self.request(), out) == Some(e),
    {
        SolveOutput { mode: mode_string(self.req), body: SolveBody::Failed(e) }
    }

    fn on_start(&mut self) -> (a: SolveAction)
        requires
            old(self).stage() is Start,
        ensures
            transition(*old(self), *final(self), SolveEvent::Start, a),
    {
        let req: &'a SolveRequest = self.req;
        match compile_options(req.pattern.as_str(), req.flags.as_str()) {
            Ok(o) => {
                self.global = o.global;
                self.stage = Stage::Compiling;
                SolveAction::Compile(o)
            },
            Err(e) => {
                self.stage = Stage::Finished;
                SolveAction::Done(self.compile_failure(e))
            },
        }
    }

    fn on_compiled(&mut self, r: Result<usize, SolveError>) -> (a: SolveAction)
        requires
            old(self).stage() is Compiling,
        ensures
            transition(*old(self), *final(self), SolveEvent::Compiled(r), a),
    {
        let req: &'a SolveRequest = self.req;
        match r {
            Err(e) => {
                self.stage = Stage::Finished;
                SolveAction::Done(self.compile_failure(e))
            },
            Ok(pairs) => {
                self.re = CompiledRegex::new(pairs, self.global);
                if tests_mode(req) {
                    let (run, skipped) = test_counts(req);
                    if run == 0 {
                        self.stage = Stage::Finished;
                        let entries: Vec<TestEntry> = Vec::new();
                        SolveAction::Done(
                            SolveOutput {
                                mode: mode_string(req),
                                body: SolveBody::Tests { entries, truncated_tests: skipped },
                            },
                        )
                    } else {
                        self.entries = Vec::new();
                        self.fed = Ghost(Seq::empty());
                        self.next_test = 0;
                        self.stage = Stage::Testing;
                        SolveAction::MatchOne(Subject::Test(0))
                    }
                } else {
                    self.stage = Stage::Displaying;
                    if self.global {
                        SolveAction::MatchAll { max_matches: Some(MAX_MATCHES) }
                    } else {
                        SolveAction::MatchOne(Subject::Text)
                    }
                }
            },
        }
    }

    fn on_test_result(&mut self, r: Result<Option<MatchSpan>, SolveError>) -> (a: SolveAction)
        requires
            old(self).stage() is Testing,
            old(self).accepts(&SolveEvent::One(r)),
        ensures
            transition(*old(self), *final(self), SolveEvent::One(r), a),
    {
        proof {
            use_type_invariant(&*self);
        }
        let req: &'a SolveRequest = self.req;
        let k = self.next_test;
        let ghost before = self.entries@;
        let t = test_text_of(req, k);
        let entry = match r {
            Ok(Some(sp)) => {
                let ix = Utf16Indexer::new(t);
                let i = ix.utf16_at(sp.start);
                let j = ix.utf16_at(sp.end);
                proof {
                    lemma_utf16_offset_mono(ix.text(), sp.start as int, sp.end as int);
                }
                TestEntry::Found { i, l: j - i }
            },
            Ok(None) => TestEntry::NotFound,
            Err(e) => TestEntry::Error(e),
        };
        let (run, skipped) = test_counts(req);
        // leave `Testing` while the entry list grows
        self.stage = Stage::Finished;
        let mut entries: Vec<TestEntry> = Vec::new();
        std::mem::swap(&mut entries, &mut self.entries);
        entries.push(entry);
        self.fed = Ghost(self.fed@.push(r));
        proof {
            assert(entries@.take(k as int) =~= before);
            assert(records_entry(before, entries@, t.spec_bytes(), r));
            assert forall|j: int| #![trigger entries@[j]] 0 <= j < entries@.len() && j < self.fed@.len()
                implies entry_reports(
                subject_bytes(*req, Subject::Test(j as usize)),
                self.fed@[j],
                entries@[j],
            ) by {
                if j < k {
                    assert(entries@[j] == before[j]);
                }
            }
        }
        if k + 1 < run {
            self.entries = entries;
            self.next_test = k + 1;
            self.stage = Stage::Testing;
            SolveAction::MatchOne(Subject::Test(k + 1))
        } else {
            SolveAction::Done(
                SolveOutput { mode: mode_string(req), body: SolveBody::Tests { entries, truncated_tests: skipped } },
            )
        }
    }

    /// The answer with the requested tool's result over `spans`.
    fn tool_answer(&self, matches: Vec<JsonMatch>, truncated: bool, spans: &[MatchSpan]) -> (out:
        SolveOutput)
        requires
            self.request().tool is Some,
            spans_wf(subject_bytes(self.request(), Subject::Text), spans@),
        ensures
            text_answer(self.request(), out) matches Some((ms, _, _)) ==> ms == matches@,
            tool_answer(self.request(), self.ngroups(), spans@, truncated, out),
    {
        let req: &'a SolveRequest = self.req;
        let text = text_of(req);
        let mode = mode_string(req);
        match &req.tool {
            Some(tool) => {
                let id = opt_str(&tool.id);
                let repl = opt_str(&tool.input);
                let res = if str_eq(id, "replace") {
                    self.re.replace_with_spans(text, spans, repl)
                } else if str_eq(id, "list") {
                    self.re.list_with_spans(text, spans, repl)
                } else {
                    Ok(String::new())
                };
                match res {
                    Ok(result) => SolveOutput {
                        mode,
                        body: SolveBody::Text {
                            matches,
                            truncated,
                            tool: Some(ToolResult { id: id.to_owned(), result }),
                        },
                    },
                    Err(e) => SolveOutput { mode, body: SolveBody::Failed(e) },
                }
            },
            None => SolveOutput { mode, body: SolveBody::Failed(SolveError::ResultTooLarge) },
        }
    }

    fn on_display(&mut self, r: Result<(Vec<MatchSpan>, bool), SolveError>) -> (a: SolveAction)
        requires
            old(self).stage() is Displaying,
            all_spans(r) matches Ok((v, _)) ==> spans_wf(
                subject_bytes(old(self).request(), Subject::Text),
                v,
            ),
        ensures
            final(self).request() == old(self).request(),
            (a is Done) == (final(self).stage() is Finished),
            final(self).steps_left() < old(self).steps_left(),
            display_step(*old(self), *final(self), all_spans(r), a),
    {
        let req: &'a SolveRequest = self.req;
        match r {
            Err(e) => {
                self.stage = Stage::Finished;
                SolveAction::Done(self.text_failure(e))
            },
            Ok((spans, truncated)) => {
                let text = text_of(req);
                let ix = Utf16Indexer::new(text);
                let matches = report_all(spans.as_slice(), &ix);
                match &req.tool {
                    None => {
                        self.stage = Stage::Finished;
                        SolveAction::Done(
                            SolveOutput {
                                mode: mode_string(req),
                                body: SolveBody::Text { matches, truncated, tool: None },
                            },
                        )
                    },
                    Some(tool) => {
                        let id = opt_str(&tool.id);
                        let span_tool = str_eq(id, "replace") || str_eq(id, "list");
                        if span_tool && (!self.global || truncated) {
                            // the displayed spans are not the complete scan the
                            // tool needs (tools always work globally)
                            self.matches = matches;
                            self.truncated = truncated;
                            self.stage = Stage::ToolScanning;
                            SolveAction::MatchAll { max_matches: None }
                        } else {
                            self.stage = Stage::Finished;
                            SolveAction::Done(self.tool_answer(matches, truncated, spans.as_slice()))
                        }
                    },
                }
            },
        }
    }

    fn on_tool_spans(&mut self, r: Result<(Vec<MatchSpan>, bool), SolveError>) -> (a: SolveAction)
        requires
            old(self).stage() is ToolScanning,
            all_spans(r) matches Ok((v, _)) ==> spans_wf(
                subject_bytes(old(self).request(), Subject::Text),
                v,
            ),
        ensures
            final(self).request() == old(self).request(),
            (a is Done) == (final(self).stage() is Finished),
            final(self).steps_left() < old(self).steps_left(),
            tool_step(*old(self), *final(self), all_spans(r), a),
    {
        proof {
            use_type_invariant(&*self);
        }
        let mut matches: Vec<JsonMatch> = Vec::new();
        std::mem::swap(&mut matches, &mut self.matches);
        self.stage = Stage::Finished;
        match r {
            Err(e) => SolveAction::Done(self.text_failure(e)),
            Ok((spans, _)) => SolveAction::Done(
                self.tool_answer(matches, self.truncated, spans.as_slice()),
            ),
        }
    }
}

/// The answer to a solve whose serialised response is `len` bytes: over
/// `MAX_RESPONSE_BYTES` it is replaced by the budget error (no matches),
/// never cut short.
pub fn response_budget_error(len: usize) -> (r: Option<SolveError>)
    ensures
        r == if len > MAX_RESPONSE_BYTES {
            Some(SolveError::ResultTooLarge)
        } else {
            None
        },
{
    if len > MAX_RESPONSE_BYTES {
        Some(SolveError::ResultTooLarge)
    } else {
        None
    }
}

/// A solve whose pattern is refused, by the size and flag check before
/// compiling or by PCRE2, is answered by that error: in text mode no
/// matches and the error, in `tests` mode one error entry per run test and
/// the skipped count.
pub proof fn law_compile_error_answer<'a>(
    s0: Solver<'a>,
    s1: Solver<'a>,
    a1: SolveAction,
    s2: Solver<'a>,
    e: SolveError,
    a2: SolveAction,
)
    requires
        s0.stage() is Start,
        transition(s0, s1, SolveEvent::Start, a1),
        a1 is Compile ==> transition(s1, s2, SolveEvent::Compiled(Err(e)), a2),
    ensures
        a1 is Done ==> (compile_error_message(
            encode_utf8(s0.request().pattern@).len(),
            s0.request().flags@,
        ) matches Some(msg) && a1 matches SolveAction::Done(out) && answers_compile_error(
            s0.request(),
            out,
            |x: SolveError| x matches SolveError::RegexParse { message } && message@ == msg,
        )),
        a1 is Compile ==> (a2 matches SolveAction::Done(out) && answers_compile_error(
            s0.request(),
            out,
            |x: SolveError| same_error(x, e),
        )),
{
}

/// A global pattern in text mode without a tool: after compiling, the
/// capped scan is asked for, and its spans are answered one for one with
/// UTF-16 offsets, its truncation passed on, no tool and no error.
pub proof fn law_global_text_answer<'a>(
    s0: Solver<'a>,
    s1: Solver<'a>,
    a1: SolveAction,
    s2: Solver<'a>,
    pairs: usize,
    a2: SolveAction,
    s3: Solver<'a>,
    spans: Vec<MatchSpan>,
    truncated: bool,
    a3: SolveAction,
)
    requires
        s0.stage() is Start,
        !is_tests_mode(s0.request()),
        s0.request().tool is None,
        options_spec(s0.request().flags@).global,
        transition(s0, s1, SolveEvent::Start, a1),
        a1 is Compile,
        transition(s1, s2, SolveEvent::Compiled(Ok(pairs)), a2),
        transition(s2, s3, SolveEvent::All(Ok((spans, truncated))), a3),
    ensures
        a2 == (SolveAction::MatchAll { max_matches: Some(MAX_MATCHES) }),
        a3 matches SolveAction::Done(out) && text_answer(s0.request(), out) matches Some(
            (ms, tr, tool),
        ) && reports_all(subject_bytes(s0.request(), Subject::Text), spans@, ms) && tr
            == truncated && tool is None,
{
}

/// In text mode every failing step is answered with no matches and its
/// error, no partial result next to it: a match call or the tool's scan
/// that fails gives its error, and a `replace` or `list` output over the
/// result budget gives `ResultTooLarge`.
pub proof fn law_text_failure_answer<'a>(
    s2: Solver<'a>,
    ev: SolveEvent,
    s3: Solver<'a>,
    a3: SolveAction,
)
    requires
        s2.stage() is Displaying || s2.stage() is ToolScanning,
        s2.accepts(&ev),
        transition(s2, s3, ev, a3),
    ensures
        ({
            let req = s2.request();
            let r = match ev {
                SolveEvent::One(x) => one_spans(x),
                SolveEvent::All(x) => all_spans(x),
                _ => one_spans(Ok(None)),
            };
            &&& r matches Err(e) ==> (a3 matches SolveAction::Done(out) && text_failure_of(req, out)
                == Some(e))
            &&& (r matches Ok((spans, tr)) && tool_id_chars(req) matches Some(id) && is_span_tool(
                id,
            ) && (s2.stage() is ToolScanning || (s2.global() && !tr)) && tool_output(
                subject_bytes(req, Subject::Text),
                s2.ngroups(),
                spans,
                id,
                tool_input_chars(req),
            ) is None) ==> (a3 matches SolveAction::Done(out) && text_failure_of(req, out) == Some(
                SolveError::ResultTooLarge,
            ))
        }),
{
}

/// `replace` and `list` always work on every match, whatever the `g` flag:
/// an answer that carries their result computed it over a complete global
/// scan, either the displayed one (global and not truncated) or the tool's
/// own uncapped scan; a first-match result or a truncated scan is never used
/// for it.
pub proof fn law_span_tool_uses_complete_scan<'a>(
    s2: Solver<'a>,
    ev: SolveEvent,
    s3: Solver<'a>,
    a3: SolveAction,
)
    requires
        s2.stage() is Displaying || s2.stage() is ToolScanning,
        s2.accepts(&ev),
        transition(s2, s3, ev, a3),
        tool_id_chars(s2.request()) matches Some(id) && is_span_tool(id),
    ensures
        a3 == (SolveAction::MatchAll { max_matches: None }) || !(ev is All) || ({
            let req = s2.request();
            a3 matches SolveAction::Done(out) && (text_answer(req, out) matches Some(
                (_, _, Some(tool)),
            ) ==> (ev matches SolveEvent::All(Ok((v, tr))) && (s2.stage() is Displaying ==> !tr
                && s2.global()) && tool_output(
                subject_bytes(req, Subject::Text),
                s2.ngroups(),
                v@,
                tool_id_chars(req)->0,
                tool_input_chars(req),
            ) == Some(tool.result@)))
        }),
        ev is One ==> a3 == (SolveAction::MatchAll { max_matches: None }) || (a3 matches SolveAction::Done(out)
            && text_answer(s2.request(), out) matches Some((_, _, tool)) ==> tool is None),
{
}

/// The first-match result an event carries (none for other events).
pub open spec fn one_result(ev: SolveEvent) -> Result<Option<MatchSpan>, SolveError> {
    match ev {
        SolveEvent::One(r) => r,
        _ => Ok(None),
    }
}

/// The first-match results carried by the events `evs[2..i]`.
pub open spec fn test_results(evs: Seq<SolveEvent>, i: int) -> Seq<
    Result<Option<MatchSpan>, SolveError>,
> {
    Seq::new(
        (i - 2) as nat,
        |k: int| one_result(evs[k + 2]),
    )
}

/// `a` answers with one entry per run test, entry `k` reporting the result
/// of the event `evs[k + 2]`, and the skipped count.
pub open spec fn answers_tests(req: SolveRequest, evs: Seq<SolveEvent>, a: SolveAction) -> bool {
    match a {
        SolveAction::Done(out) => match tests_answer(req, out) {
            Some(es) => es.len() == tests_run(req) && forall|k: int|
                #![trigger es[k]]
                0 <= k < es.len() ==> reports_test_event(req, evs, k, es[k]),
            None => false,
        },
        _ => false,
    }
}

/// Entry `k` reports the first-match result of the event `evs[k + 2]`.
pub open spec fn reports_test_event(req: SolveRequest, evs: Seq<SolveEvent>, k: int, e: TestEntry) -> bool {
    evs[k + 2] is One && entry_reports(
        subject_bytes(req, Subject::Test(k as usize)),
        one_result(evs[k + 2]),
        e,
    )
}

/// A run of a solver: each state moved to the next on the event it
/// accepted, asking for the action.
pub open spec fn is_run<'a>(ss: Seq<Solver<'a>>, evs: Seq<SolveEvent>, acts: Seq<SolveAction>) -> bool {
    &&& ss.len() == evs.len() + 1
    &&& acts.len() == evs.len()
    &&& forall|i: int|
        #![trigger evs[i]]
        0 <= i < evs.len() ==> ss[i].accepts(&evs[i]) && transition(
            ss[i],
            ss[i + 1],
            evs[i],
            acts[i],
        )
}

proof fn lemma_tests_run_prefix<'a>(
    ss: Seq<Solver<'a>>,
    evs: Seq<SolveEvent>,
    acts: Seq<SolveAction>,
    i: int,
)
    requires
        is_run(ss, evs, acts),
        ss[0].stage() is Start,
        is_tests_mode(ss[0].request()),
        evs.len() >= 2,
        acts[0] is Compile,
        evs[1] matches SolveEvent::Compiled(Ok(_)),
        tests_run(ss[0].request()) > 0,
        2 <= i < evs.len(),
    ensures
        ss[i].request() == ss[0].request(),
        ss[i].stage() is Testing,
        ss[i].next_test() == i - 2,
        ss[i].fed() == test_results(evs, i),
    decreases i,
{
    assert(ss[0].accepts(&evs[0]) && transition(ss[0], ss[1], evs[0], acts[0]));
    assert(ss[1].accepts(&evs[1]) && transition(ss[1], ss[2], evs[1], acts[1]));
    if i == 2 {
        assert(test_results(evs, 2) =~= Seq::empty());
    } else {
        lemma_tests_run_prefix(ss, evs, acts, i - 1);
        assert(ss[i - 1].accepts(&evs[i - 1]) && transition(ss[i - 1], ss[i], evs[i - 1], acts[i - 1]));
        assert(ss[i].accepts(&evs[i]));
        assert(test_results(evs, i) =~= test_results(evs, i - 1).push(one_result(evs[i - 1])));
    }
}

/// A whole `tests` mode solve of a pattern that compiles: after the start
/// and the compile, it asks for exactly one first match per run test, in
/// order, and answers with one entry per run test reporting that test's
/// result (its UTF-16 match offsets, no match, or its error), with the
/// skipped count.
pub proof fn law_tests_mode_answer<'a>(
    ss: Seq<Solver<'a>>,
    evs: Seq<SolveEvent>,
    acts: Seq<SolveAction>,
)
    requires
        is_run(ss, evs, acts),
        ss[0].stage() is Start,
        is_tests_mode(ss[0].request()),
        evs.len() >= 2,
        acts[0] is Compile,
        evs[1] matches SolveEvent::Compiled(Ok(_)),
        acts.last() is Done,
    ensures
        evs.len() == tests_run(ss[0].request()) + 2,
        answers_tests(ss[0].request(), evs, acts.last()),
{
    let req = ss[0].request();
    let n = evs.len() as int;
    assert(ss[0].accepts(&evs[0]) && transition(ss[0], ss[1], evs[0], acts[0]));
    assert(ss[1].accepts(&evs[1]) && transition(ss[1], ss[2], evs[1], acts[1]));
    if tests_run(req) == 0 {
        if n > 2 {
            assert(ss[2].accepts(&evs[2]));
        }
        assert(acts.last() == acts[1]);

    } else {
        // every state from the third on is waiting for a test result until
        // the last step answers
        let m = n - 1;
        assert(m >= 2) by {
            if m < 2 {
                assert(acts[1] is MatchOne);
            }
        }
        lemma_tests_run_prefix(ss, evs, acts, m);
        assert(ss[m].accepts(&evs[m]) && transition(ss[m], ss[m + 1], evs[m], acts[m]));
        let r = one_result(evs[m]);
        assert(test_results(evs, n) =~= test_results(evs, m).push(r));
        if m + 1 < tests_run(req) + 2 {
            assert(acts[m] is MatchOne);
        }
        let out = acts[m]->Done_0;
        let es = tests_answer(req, out)->0;
        assert(ss[m + 1].fed() == test_results(evs, n));
        assert(acts.last() == acts[m]);
        assert forall|k: int|
            #![trigger es[k]]
            0 <= k < es.len() implies reports_test_event(req, evs, k, es[k]) by {
            if k + 2 < m {
                lemma_tests_run_prefix(ss, evs, acts, k + 2);
                assert(ss[k + 2].accepts(&evs[k + 2]));
            }
            assert(ss[m + 1].fed()[k] == test_results(evs, n)[k]);
        }
        assert(answers_tests(req, evs, acts.last()));
    }
}

} // verus!
