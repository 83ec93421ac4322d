//! What the solve logic knows of a compiled PCRE2 pattern, and everything it
//! does with match spans: replacement, listing, and the global-iteration
//! decisions that drive the engine.

use vstd::prelude::*;
use vstd::string::StringSliceAdditionalSpecFns;
use vstd::utf8::*;

use crate::config::{MAX_CAPTURE_CELLS, MAX_PATTERN_BYTES, MAX_TOOL_RESULT_BYTES};
use crate::solve::errors::SolveError;
use crate::solve::offsets::{lemma_boundary_in_range, lemma_encode_utf8_concat};
use crate::text::{string_from_utf8_lossy, utf8_lossy};
use crate::solve::subst::{
    chars_of,
    expand,
    expand_spec,
    law_literal_template_is_kept,
    law_whole_match_reference,
    lookup_callable,
    lookup_consistent,
    opt_text,
};

verus! {

broadcast use vstd::utf8::group_utf8_lib;

/// A byte-span match with per-group spans (byte offsets into the subject).
#[derive(Debug)]
pub struct MatchSpan {
    pub start: usize,
    pub end: usize,
    /// Group 1..=N; `None` = the group exists but did not participate.
    pub groups: Vec<Option<(usize, usize)>>,
}

/// PCRE2 marks the ovector entries of a group that did not participate
/// with `PCRE2_UNSET`, the largest offset.
pub const PCRE2_UNSET: usize = usize::MAX;

/// The span of ovector pair `idx`, `None` when either end is unset.
pub open spec fn ovector_pair(ov: Seq<usize>, idx: int) -> Option<(usize, usize)> {
    let s = ov[2 * idx];
    let e = ov[2 * idx + 1];
    if s == PCRE2_UNSET || e == PCRE2_UNSET {
        None
    } else {
        Some((s, e))
    }
}

/// The match span an ovector of `pairs` (start, end) pairs describes:
/// pair 0 is the whole match (`0..0` if unset), pairs 1.. the groups.
pub open spec fn span_of_ovector(ov: Seq<usize>, pairs: nat, sp: &MatchSpan) -> bool {
    &&& (match ovector_pair(ov, 0) {
        Some((s, e)) => sp.start == s && sp.end == e,
        None => sp.start == 0 && sp.end == 0,
    })
    &&& sp.groups@.len() == pairs - 1
    &&& forall|g: int| 0 <= g < pairs - 1 ==> #[trigger] sp.groups@[g] == ovector_pair(ov, g + 1)
}

fn pair_at(ov: &[usize], idx: usize) -> (r: Option<(usize, usize)>)
    requires
        2 * idx + 1 < ov@.len(),
    ensures
        r == ovector_pair(ov@, idx as int),
{
    let n = ov.len();
    assert(2 * idx + 1 < n);
    let s = ov[2 * idx];
    let e = ov[2 * idx + 1];
    if s == PCRE2_UNSET || e == PCRE2_UNSET {
        None
    } else {
        Some((s, e))
    }
}

/// Read the match span out of an ovector of `pairs` (start, end) pairs, as
/// PCRE2 leaves it after a successful match.
pub fn span_from_ovector(ov: &[usize], pairs: usize) -> (sp: MatchSpan)
    requires
        1 <= pairs,
        2 * pairs <= ov@.len(),
    ensures
        span_of_ovector(ov@, pairs as nat, &sp),
{
    let (start, end) = match pair_at(ov, 0) {
        Some((s, e)) => (s, e),
        None => (0, 0),
    };
    let mut groups: Vec<Option<(usize, usize)>> = Vec::new();
    let mut idx: usize = 1;
    while idx < pairs
        invariant
            1 <= idx <= pairs,
            2 * pairs <= ov@.len(),
            groups@.len() == idx - 1,
            forall|g: int| 0 <= g < idx - 1 ==> #[trigger] groups@[g] == ovector_pair(ov@, g + 1),
        decreases pairs - idx,
    {
        groups.push(pair_at(ov, idx));
        idx = idx + 1;
    }
    MatchSpan { start, end, groups }
}

/// `a..b` is a slice of the UTF-8 text `t` cut at char boundaries.
pub open spec fn is_text_range(t: Seq<u8>, a: int, b: int) -> bool {
    &&& a <= b
    &&& is_char_boundary(t, a)
    &&& is_char_boundary(t, b)
}

/// A match span lies inside the text, cut at char boundaries, and so do its
/// participating groups.
pub open spec fn span_wf(t: Seq<u8>, sp: &MatchSpan) -> bool {
    &&& is_text_range(t, sp.start as int, sp.end as int)
    &&& forall|g: int|
        0 <= g < sp.groups@.len() ==> (#[trigger] sp.groups@[g] matches Some((s, e))
            ==> is_text_range(t, s as int, e as int))
}

/// Spans lie in the text and follow each other without overlapping.
pub open spec fn spans_wf(t: Seq<u8>, spans: Seq<MatchSpan>) -> bool {
    &&& forall|k: int| 0 <= k < spans.len() ==> span_wf(t, &#[trigger] spans[k])
    &&& forall|k: int| 0 < k < spans.len() ==> #[trigger] spans[k - 1].end <= spans[k].start
}

/// The chars of `t[a..b]`.
pub open spec fn piece(t: Seq<u8>, a: int, b: int) -> Seq<char> {
    decode_utf8(t.subrange(a, b))
}

/// Byte length of the UTF-8 encoding of a char sequence.
pub open spec fn utf8_len(cs: Seq<char>) -> nat {
    encode_utf8(cs).len()
}

/// Captures of one match as the replacement expansion sees them: group 0 is
/// the whole match, groups past the span's list have no capture.
pub open spec fn span_captures(t: Seq<u8>, sp: &MatchSpan) -> spec_fn(nat) -> Option<Seq<char>> {
    |n: nat|
        if n == 0 {
            Some(piece(t, sp.start as int, sp.end as int))
        } else if n > sp.groups@.len() {
            None
        } else {
            match sp.groups@[n - 1] {
                Some((s, e)) => Some(piece(t, s as int, e as int)),
                None => None,
            }
        }
}

/// Expansion of `repl` for one match.
pub open spec fn span_expansion(t: Seq<u8>, ngroups: nat, sp: &MatchSpan, repl: Seq<char>) -> Seq<
    char,
> {
    expand_spec(repl, ngroups, span_captures(t, sp))
}

/// End of the `k`-th span before, 0 at the start.
pub open spec fn prev_end(spans: Seq<MatchSpan>, k: int) -> int {
    if k <= 0 {
        0
    } else {
        spans[k - 1].end as int
    }
}

/// Output of the `replace` tool up to the end of the `k`-th match: the text
/// between matches kept, each match replaced by its expansion.
pub open spec fn replaced_upto(
    t: Seq<u8>,
    ngroups: nat,
    spans: Seq<MatchSpan>,
    repl: Seq<char>,
    k: int,
) -> Seq<char>
    decreases k,
{
    if k <= 0 {
        Seq::empty()
    } else {
        replaced_upto(t, ngroups, spans, repl, k - 1) + piece(
            t,
            prev_end(spans, k - 1),
            spans[k - 1].start as int,
        ) + span_expansion(t, ngroups, &spans[k - 1], repl)
    }
}

/// Output of the `list` tool up to the `k`-th match: the expansions, one
/// after another.
pub open spec fn listed_upto(
    t: Seq<u8>,
    ngroups: nat,
    spans: Seq<MatchSpan>,
    repl: Seq<char>,
    k: int,
) -> Seq<char>
    decreases k,
{
    if k <= 0 {
        Seq::empty()
    } else {
        listed_upto(t, ngroups, spans, repl, k - 1) + span_expansion(
            t,
            ngroups,
            &spans[k - 1],
            repl,
        )
    }
}

/// Output of the `replace` tool over `spans`, or `None` when the whole
/// output, the text after the last match included, is over
/// `MAX_TOOL_RESULT_BYTES`.
pub open spec fn replace_result(
    t: Seq<u8>,
    ngroups: nat,
    spans: Seq<MatchSpan>,
    repl: Seq<char>,
) -> Option<Seq<char>> {
    let n = spans.len() as int;
    let all = replaced_upto(t, ngroups, spans, repl, n) + piece(
        t,
        prev_end(spans, n),
        t.len() as int,
    );
    if utf8_len(all) > MAX_TOOL_RESULT_BYTES {
        None
    } else {
        Some(all)
    }
}

/// Output of the `list` tool over `spans`, or `None` when it is over
/// `MAX_TOOL_RESULT_BYTES`.
pub open spec fn list_result(
    t: Seq<u8>,
    ngroups: nat,
    spans: Seq<MatchSpan>,
    repl: Seq<char>,
) -> Option<Seq<char>> {
    let all = listed_upto(t, ngroups, spans, repl, spans.len() as int);
    if utf8_len(all) > MAX_TOOL_RESULT_BYTES {
        None
    } else {
        Some(all)
    }
}

/// Whether `start..end` is a range of `s` cut at char boundaries.
fn range_valid(s: &str, start: usize, end: usize) -> (r: bool)
    ensures
        r == is_text_range(s.spec_bytes(), start as int, end as int),
{
    start <= end && s.is_char_boundary(start) && s.is_char_boundary(end)
}

/// Whether the match span lies in `subject`, cut at char boundaries, with
/// its participating groups.
pub fn span_valid(subject: &str, sp: &MatchSpan) -> (r: bool)
    ensures
        r == span_wf(subject.spec_bytes(), sp),
{
    if !range_valid(subject, sp.start, sp.end) {
        return false;
    }
    let mut g: usize = 0;
    while g < sp.groups.len()
        invariant
            g <= sp.groups@.len(),
            is_text_range(subject.spec_bytes(), sp.start as int, sp.end as int),
            forall|h: int|
                0 <= h < g ==> (#[trigger] sp.groups@[h] matches Some((s, e)) ==> is_text_range(
                    subject.spec_bytes(),
                    s as int,
                    e as int,
                )),
        decreases sp.groups@.len() - g,
    {
        if let Some((s, e)) = sp.groups[g] {
            if !range_valid(subject, s, e) {
                return false;
            }
        }
        g = g + 1;
    }
    true
}

/// Whether the spans lie in `subject` and follow each other without
/// overlapping, as `replace_with_spans` and `list_with_spans` need.
pub fn spans_valid(subject: &str, spans: &[MatchSpan]) -> (r: bool)
    ensures
        r == spans_wf(subject.spec_bytes(), spans@),
{
    let mut k: usize = 0;
    while k < spans.len()
        invariant
            k <= spans@.len(),
            forall|j: int| 0 <= j < k ==> span_wf(subject.spec_bytes(), &#[trigger] spans@[j]),
            forall|j: int| 0 < j < k ==> #[trigger] spans@[j - 1].end <= spans@[j].start,
        decreases spans@.len() - k,
    {
        if !span_valid(subject, &spans[k]) {
            return false;
        }
        if k > 0 && spans[k - 1].end > spans[k].start {
            return false;
        }
        k = k + 1;
    }
    true
}

proof fn lemma_boundary_in_prefix(t: Seq<u8>, a: int, b: int)
    requires
        valid_utf8(t),
        is_text_range(t, a, b),
    ensures
        valid_utf8(t.subrange(0, b)),
        is_char_boundary(t.subrange(0, b), a),
        0 <= a <= b <= t.len(),
{
    lemma_boundary_in_range(t, a);
    lemma_boundary_in_range(t, b);
    valid_utf8_split(t, b);
    let p = t.subrange(0, b);
    if a == b {
        is_char_boundary_start_end_of_seq(p);
    } else if a > 0 {
        is_char_boundary_iff_not_is_continuation_byte(t, a);
        is_char_boundary_iff_not_is_continuation_byte(p, a);
    }
}

/// `&s[a..b]` for a range cut at char boundaries.
fn slice_str<'a>(s: &'a str, a: usize, b: usize) -> (r: &'a str)
    requires
        is_text_range(s.spec_bytes(), a as int, b as int),
    ensures
        r@ == piece(s.spec_bytes(), a as int, b as int),
{
    let ghost t = s.spec_bytes();
    proof {
        lemma_boundary_in_prefix(t, a as int, b as int);
    }
    let (head, _) = s.split_at(b);
    let (_, mid) = head.split_at(a);
    proof {
        assert(mid.spec_bytes() =~= t.subrange(a as int, b as int));
    }
    mid
}

proof fn lemma_utf8_len_concat(a: Seq<char>, b: Seq<char>)
    ensures
        utf8_len(a + b) == utf8_len(a) + utf8_len(b),
{
    lemma_encode_utf8_concat(a, b);
}

proof fn lemma_replaced_len_mono(
    t: Seq<u8>,
    ngroups: nat,
    spans: Seq<MatchSpan>,
    repl: Seq<char>,
    j: int,
    k: int,
)
    requires
        0 <= j <= k,
    ensures
        utf8_len(replaced_upto(t, ngroups, spans, repl, j)) <= utf8_len(
            replaced_upto(t, ngroups, spans, repl, k),
        ),
    decreases k - j,
{
    if j < k {
        lemma_replaced_len_mono(t, ngroups, spans, repl, j, k - 1);
        let prev = replaced_upto(t, ngroups, spans, repl, k - 1);
        let gap = piece(t, prev_end(spans, k - 1), spans[k - 1].start as int);
        let exp = span_expansion(t, ngroups, &spans[k - 1], repl);
        lemma_utf8_len_concat(prev, gap);
        lemma_utf8_len_concat(prev + gap, exp);
    }
}

proof fn lemma_listed_len_mono(
    t: Seq<u8>,
    ngroups: nat,
    spans: Seq<MatchSpan>,
    repl: Seq<char>,
    j: int,
    k: int,
)
    requires
        0 <= j <= k,
    ensures
        utf8_len(listed_upto(t, ngroups, spans, repl, j)) <= utf8_len(
            listed_upto(t, ngroups, spans, repl, k),
        ),
    decreases k - j,
{
    if j < k {
        lemma_listed_len_mono(t, ngroups, spans, repl, j, k - 1);
        lemma_utf8_len_concat(
            listed_upto(t, ngroups, spans, repl, k - 1),
            span_expansion(t, ngroups, &spans[k - 1], repl),
        );
    }
}

/// Byte length of a string.
fn byte_len(s: &String) -> (r: usize)
    ensures
        r == utf8_len(s@),
{
    s.as_str().as_bytes().len()
}

/// What the solve logic reads of a compiled pattern.
pub struct CompiledRegex {
    ngroups: usize,
    global: bool,
}

impl CompiledRegex {
    pub closed spec fn spec_ngroups(&self) -> usize {
        self.ngroups
    }

    pub closed spec fn spec_global(&self) -> bool {
        self.global
    }

    /// The pattern facts for `pairs` ovector pairs (groups + the whole
    /// match) and the `g` flag.
    pub fn new(pairs: usize, global: bool) -> (re: Self)
        ensures
            re.spec_ngroups() == (if pairs == 0 {
                0
            } else {
                pairs - 1
            }),
            re.spec_global() == global,
    {
        let ngroups = if pairs == 0 {
            0
        } else {
            pairs - 1
        };
        CompiledRegex { ngroups, global }
    }

    /// Whether the pattern matches globally (`g` flag).
    pub fn global(&self) -> (r: bool)
        ensures
            r == self.spec_global(),
    {
        self.global
    }

    /// Number of capturing groups of the pattern.
    pub fn ngroups(&self) -> (r: usize)
        ensures
            r == self.spec_ngroups(),
    {
        self.ngroups
    }

    /// Expansion of `repl` for one match span.
    fn expand_span(&self, subject: &str, sp: &MatchSpan, repl: &str) -> (out: String)
        requires
            span_wf(subject.spec_bytes(), sp),
        ensures
            out@ == span_expansion(subject.spec_bytes(), self.ngroups as nat, sp, repl@),
    {
        let ghost t = subject.spec_bytes();
        let lookup = |n: usize| -> (r: Option<&str>)
            requires
                span_wf(subject.spec_bytes(), sp),
            ensures
                opt_text(r) == span_captures(subject.spec_bytes(), sp)(n as nat),
            {
                if n == 0 {
                    Some(slice_str(subject, sp.start, sp.end))
                } else if n > sp.groups.len() {
                    None
                } else {
                    match sp.groups[n - 1] {
                        Some((s, e)) => Some(slice_str(subject, s, e)),
                        None => None,
                    }
                }
            };
        proof {
            assert(lookup_callable(lookup, self.ngroups));
            assert(lookup_consistent(lookup, span_captures(t, sp)));
        }
        expand(repl, self.ngroups, lookup)
    }
    /// Replace every span by the expansion of `repl` (PHP `preg_replace`
    /// semantics), keeping the text between spans. The whole output, the
    /// text after the last match included, is bounded by
    /// `MAX_TOOL_RESULT_BYTES`: beyond it the result is an explicit error,
    /// never a truncated string.
    pub fn replace_with_spans(&self, subject: &str, spans: &[MatchSpan], repl: &str) -> (r: Result<
        String,
        SolveError,
    >)
        requires
            spans_wf(subject.spec_bytes(), spans@),
        ensures
            ({
                let t = subject.spec_bytes();
                let n = spans@.len() as int;
                let all = replaced_upto(t, self.spec_ngroups() as nat, spans@, repl@, n) + piece(
                    t,
                    prev_end(spans@, n),
                    t.len() as int,
                );
                match r {
                    Ok(out) => utf8_len(all) <= MAX_TOOL_RESULT_BYTES && out@ == all,
                    Err(e) => utf8_len(all) > MAX_TOOL_RESULT_BYTES && e is ResultTooLarge,
                }
            }),
    {
        let ghost t = subject.spec_bytes();
        let ghost ng = self.ngroups as nat;
        let mut out = String::new();
        let mut last: usize = 0;
        let mut k: usize = 0;
        proof {
            is_char_boundary_start_end_of_seq(t);
            assert(out@ =~= replaced_upto(t, ng, spans@, repl@, 0));
        }
        while k < spans.len()
            invariant
                t == subject.spec_bytes(),
                ng == self.ngroups as nat,
                spans_wf(t, spans@),
                k <= spans@.len(),
                last as int == prev_end(spans@, k as int),
                is_char_boundary(t, last as int),
                out@ == replaced_upto(t, ng, spans@, repl@, k as int),
                utf8_len(out@) <= MAX_TOOL_RESULT_BYTES,
            decreases spans@.len() - k,
        {
            let sp = &spans[k];
            assert(span_wf(t, sp));
            let gap = slice_str(subject, last, sp.start);
            out.push_str(gap);
            let expansion = self.expand_span(subject, sp, repl);
            let have = byte_len(&out);
            let more = byte_len(&expansion);
            proof {
                lemma_utf8_len_concat(out@, expansion@);
            }
            if more > MAX_TOOL_RESULT_BYTES || have > MAX_TOOL_RESULT_BYTES - more {
                proof {
                    let n = spans@.len() as int;
                    lemma_replaced_len_mono(t, ng, spans@, repl@, k + 1, n);
                    lemma_utf8_len_concat(
                        replaced_upto(t, ng, spans@, repl@, n),
                        piece(t, prev_end(spans@, n), t.len() as int),
                    );
                }
                return Err(SolveError::ResultTooLarge);
            }
            out.push_str(expansion.as_str());
            last = sp.end;
            k = k + 1;
        }
        let tail = slice_str(subject, last, subject.as_bytes().len());
        let have = byte_len(&out);
        let more = tail.as_bytes().len();
        proof {
            lemma_utf8_len_concat(out@, tail@);
        }
        if more > MAX_TOOL_RESULT_BYTES || have > MAX_TOOL_RESULT_BYTES - more {
            // the text after the last match is held to the budget too
            return Err(SolveError::ResultTooLarge);
        }
        out.push_str(tail);
        Ok(out)
    }

    /// The `list` tool: the expansion of `repl` for every span,
    /// concatenated without separator, bounded by `MAX_TOOL_RESULT_BYTES` like
    /// `replace_with_spans`.
    pub fn list_with_spans(&self, subject: &str, spans: &[MatchSpan], repl: &str) -> (r: Result<
        String,
        SolveError,
    >)
        requires
            spans_wf(subject.spec_bytes(), spans@),
        ensures
            ({
                let all = listed_upto(
                    subject.spec_bytes(),
                    self.spec_ngroups() as nat,
                    spans@,
                    repl@,
                    spans@.len() as int,
                );
                match r {
                    Ok(out) => utf8_len(all) <= MAX_TOOL_RESULT_BYTES && out@ == all,
                    Err(e) => utf8_len(all) > MAX_TOOL_RESULT_BYTES && e is ResultTooLarge,
                }
            }),
    {
        let ghost t = subject.spec_bytes();
        let ghost ng = self.ngroups as nat;
        let mut out = String::new();
        let mut k: usize = 0;
        proof {
            assert(out@ =~= listed_upto(t, ng, spans@, repl@, 0));
        }
        while k < spans.len()
            invariant
                t == subject.spec_bytes(),
                ng == self.ngroups as nat,
                spans_wf(t, spans@),
                k <= spans@.len(),
                out@ == listed_upto(t, ng, spans@, repl@, k as int),
                utf8_len(out@) <= MAX_TOOL_RESULT_BYTES,
            decreases spans@.len() - k,
        {
            let sp = &spans[k];
            assert(span_wf(t, sp));
            let expansion = self.expand_span(subject, sp, repl);
            let have = byte_len(&out);
            let more = byte_len(&expansion);
            proof {
                lemma_utf8_len_concat(out@, expansion@);
            }
            if more > MAX_TOOL_RESULT_BYTES || have > MAX_TOOL_RESULT_BYTES - more {
                proof {
                    lemma_listed_len_mono(t, ng, spans@, repl@, k + 1, spans@.len() as int);
                }
                return Err(SolveError::ResultTooLarge);
            }
            out.push_str(expansion.as_str());
            k = k + 1;
        }
        Ok(out)
    }
}

proof fn lemma_piece_concat(t: Seq<u8>, a: int, b: int)
    requires
        valid_utf8(t),
        is_text_range(t, a, b),
    ensures
        piece(t, 0, a) + piece(t, a, b) == piece(t, 0, b),
{
    lemma_boundary_in_prefix(t, a, b);
    let p = t.subrange(0, b);
    decode_utf8_split(p, a);
    assert(p.subrange(0, a) =~= t.subrange(0, a));
    assert(p.subrange(a, p.len() as int) =~= t.subrange(a, b));
}

proof fn lemma_replaced_by_whole_match(t: Seq<u8>, ngroups: nat, spans: Seq<MatchSpan>, k: int)
    requires
        valid_utf8(t),
        spans_wf(t, spans),
        0 <= k <= spans.len(),
    ensures
        replaced_upto(t, ngroups, spans, "$0"@, k) == piece(t, 0, prev_end(spans, k)),
        is_char_boundary(t, prev_end(spans, k)),
    decreases k,
{
    if k == 0 {
        is_char_boundary_start_end_of_seq(t);
        assert(t.subrange(0, 0) =~= Seq::<u8>::empty());
    } else {
        lemma_replaced_by_whole_match(t, ngroups, spans, k - 1);
        let sp = spans[k - 1];
        let pe = prev_end(spans, k - 1);
        assert(span_wf(t, &spans[k - 1]));
        if k > 1 {
            assert(spans[k - 2].end <= spans[k - 1].start);
        }
        lemma_boundary_in_range(t, sp.start as int);
        law_whole_match_reference(ngroups, span_captures(t, &sp));
        lemma_piece_concat(t, pe, sp.start as int);
        lemma_piece_concat(t, sp.start as int, sp.end as int);
    }
}

/// Replacing every match by the whole match (`$0`) gives the subject back,
/// when it fits the result budget.
pub proof fn law_replace_by_whole_match_is_identity(t: Seq<u8>, ngroups: nat, spans: Seq<MatchSpan>)
    requires
        valid_utf8(t),
        spans_wf(t, spans),
        t.len() <= MAX_TOOL_RESULT_BYTES,
    ensures
        replace_result(t, ngroups, spans, "$0"@) == Some(decode_utf8(t)),
{
    let n = spans.len() as int;
    lemma_replaced_by_whole_match(t, ngroups, spans, n);
    let pe = prev_end(spans, n);
    is_char_boundary_start_end_of_seq(t);
    lemma_boundary_in_range(t, pe);
    lemma_boundary_in_prefix(t, pe, pe);
    assert(utf8_len(piece(t, 0, pe)) == pe) by {
        valid_utf8_split(t, pe);
        decode_utf8_encode_utf8(t.subrange(0, pe));
    }
    lemma_piece_concat(t, pe, t.len() as int);
    assert(t.subrange(0, t.len() as int) =~= t);
}

/// Chars of the text inside the first `k` spans.
pub open spec fn matched_chars(t: Seq<u8>, spans: Seq<MatchSpan>, k: int) -> nat
    decreases k,
{
    if k <= 0 {
        0
    } else {
        matched_chars(t, spans, k - 1) + piece(t, spans[k - 1].start as int, spans[k - 1].end as int).len()
    }
}

/// `r` repeated `n` times.
pub open spec fn repeated(r: Seq<char>, n: nat) -> Seq<char>
    decreases n,
{
    if n == 0 {
        Seq::empty()
    } else {
        repeated(r, (n - 1) as nat) + r
    }
}

/// A template without `$` or `\`.
pub open spec fn is_literal_template(r: Seq<char>) -> bool {
    forall|j: int| 0 <= j < r.len() ==> #[trigger] r[j] != '$' && r[j] != '\\'
}

proof fn lemma_replaced_literal(t: Seq<u8>, ngroups: nat, spans: Seq<MatchSpan>, r: Seq<char>, k: int)
    requires
        valid_utf8(t),
        spans_wf(t, spans),
        is_literal_template(r),
        0 <= k <= spans.len(),
    ensures
        replaced_upto(t, ngroups, spans, r, k).len() + matched_chars(t, spans, k) == piece(
            t,
            0,
            prev_end(spans, k),
        ).len() + k * r.len(),
        is_char_boundary(t, prev_end(spans, k)),
    decreases k,
{
    if k == 0 {
        is_char_boundary_start_end_of_seq(t);
        assert(t.subrange(0, 0) =~= Seq::<u8>::empty());
    } else {
        lemma_replaced_literal(t, ngroups, spans, r, k - 1);
        let sp = spans[k - 1];
        let pe = prev_end(spans, k - 1);
        assert(span_wf(t, &spans[k - 1]));
        if k > 1 {
            assert(spans[k - 2].end <= spans[k - 1].start);
        }
        lemma_boundary_in_range(t, sp.start as int);
        law_literal_template_is_kept(r, ngroups, span_captures(t, &sp));
        lemma_piece_concat(t, pe, sp.start as int);
        lemma_piece_concat(t, sp.start as int, sp.end as int);
        assert(k * r.len() == (k - 1) * r.len() + r.len()) by (nonlinear_arith);
    }
}

/// Replacing with a literal template (no `$` or `\`) puts it in place of
/// every span, whatever its position or length: the output has the chars
/// of the text outside the matches plus one copy of the template per span.
pub proof fn law_replace_literal_length(t: Seq<u8>, ngroups: nat, spans: Seq<MatchSpan>, r: Seq<char>)
    requires
        valid_utf8(t),
        spans_wf(t, spans),
        is_literal_template(r),
    ensures
        replace_result(t, ngroups, spans, r) matches Some(out) ==> out.len() + matched_chars(
            t,
            spans,
            spans.len() as int,
        ) == decode_utf8(t).len() + spans.len() * r.len(),
{
    let n = spans.len() as int;
    lemma_replaced_literal(t, ngroups, spans, r, n);
    let pe = prev_end(spans, n);
    is_char_boundary_start_end_of_seq(t);
    lemma_boundary_in_range(t, pe);
    lemma_piece_concat(t, pe, t.len() as int);
    assert(t.subrange(0, t.len() as int) =~= t);
}

/// Replacing over a single span `s..e` gives the text before it, the
/// span's expansion and the text after it, for every span, empty or not,
/// at any position; refused exactly when that is over the result budget.
pub proof fn law_replace_single_span(t: Seq<u8>, ngroups: nat, sp: MatchSpan, r: Seq<char>)
    requires
        valid_utf8(t),
        span_wf(t, &sp),
    ensures
        ({
            let out = piece(t, 0, sp.start as int) + span_expansion(t, ngroups, &sp, r) + piece(
                t,
                sp.end as int,
                t.len() as int,
            );
            replace_result(t, ngroups, seq![sp], r) == if utf8_len(out) <= MAX_TOOL_RESULT_BYTES {
                Some(out)
            } else {
                None
            }
        }),
{
    let s1 = seq![sp];
    assert(s1[0] == sp);
    assert(replaced_upto(t, ngroups, s1, r, 0) == Seq::<char>::empty());
    assert(Seq::<char>::empty() + piece(t, 0, sp.start as int) =~= piece(t, 0, sp.start as int));
}

proof fn lemma_list_literal(t: Seq<u8>, ngroups: nat, spans: Seq<MatchSpan>, r: Seq<char>, k: int)
    requires
        is_literal_template(r),
        0 <= k <= spans.len(),
    ensures
        listed_upto(t, ngroups, spans, r, k) == repeated(r, k as nat),
        utf8_len(repeated(r, k as nat)) == k * utf8_len(r),
    decreases k,
{
    if k > 0 {
        lemma_list_literal(t, ngroups, spans, r, k - 1);
        law_literal_template_is_kept(r, ngroups, span_captures(t, &spans[k - 1]));
        lemma_utf8_len_concat(repeated(r, (k - 1) as nat), r);
        assert(k * utf8_len(r) == (k - 1) * utf8_len(r) + utf8_len(r)) by (nonlinear_arith);
    } else {
        assert(encode_utf8(Seq::<char>::empty()) =~= Seq::<u8>::empty());
    }
}

/// Listing with a literal template gives it once per span, every span
/// counted, empty or not: the template repeated as many times as there are
/// spans, refused exactly when that is over the result budget.
pub proof fn law_list_literal(t: Seq<u8>, ngroups: nat, spans: Seq<MatchSpan>, r: Seq<char>)
    requires
        is_literal_template(r),
    ensures
        list_result(t, ngroups, spans, r) == if spans.len() * utf8_len(r) <= MAX_TOOL_RESULT_BYTES {
            Some(repeated(r, spans.len()))
        } else {
            None
        },
{
    lemma_list_literal(t, ngroups, spans, r, spans.len() as int);
}

proof fn lemma_listed_prefix(
    t: Seq<u8>,
    ngroups: nat,
    spans: Seq<MatchSpan>,
    sp: MatchSpan,
    r: Seq<char>,
    k: int,
)
    requires
        0 <= k <= spans.len(),
    ensures
        listed_upto(t, ngroups, spans.push(sp), r, k) == listed_upto(t, ngroups, spans, r, k),
    decreases k,
{
    if k > 0 {
        lemma_listed_prefix(t, ngroups, spans, sp, r, k - 1);
        assert(spans.push(sp)[k - 1] == spans[k - 1]);
    }
}

/// Listing one more span adds exactly its expansion, whatever the span:
/// `list(s ++ [sp]) == list(s) + expansion(sp)` whenever the longer list
/// fits the budget (and then the shorter one does too).
pub proof fn law_list_appends_expansion(
    t: Seq<u8>,
    ngroups: nat,
    spans: Seq<MatchSpan>,
    sp: MatchSpan,
    r: Seq<char>,
)
    ensures
        list_result(t, ngroups, spans.push(sp), r) matches Some(out) ==> (list_result(
            t,
            ngroups,
            spans,
            r,
        ) matches Some(prev) && out == prev + span_expansion(t, ngroups, &sp, r)),
{
    let n = spans.len() as int;
    lemma_listed_prefix(t, ngroups, spans, sp, r, n);
    assert(spans.push(sp)[n] == sp);
    lemma_utf8_len_concat(listed_upto(t, ngroups, spans, r, n), span_expansion(t, ngroups, &sp, r));
}

/// Without matches, `replace` gives the subject back (when it fits the
/// result budget, the budget error otherwise) and `list` gives nothing.
pub proof fn law_no_match_tools(t: Seq<u8>, ngroups: nat, repl: Seq<char>)
    requires
        valid_utf8(t),
    ensures
        replace_result(t, ngroups, Seq::empty(), repl) == if t.len() <= MAX_TOOL_RESULT_BYTES {
            Some(decode_utf8(t))
        } else {
            None
        },
        list_result(t, ngroups, Seq::empty(), repl) == Some(Seq::<char>::empty()),
{
    assert(encode_utf8(Seq::<char>::empty()) =~= Seq::<u8>::empty());
    assert(t.subrange(0, t.len() as int) =~= t);
    assert(Seq::<char>::empty() + decode_utf8(t) =~= decode_utf8(t));
    decode_utf8_encode_utf8(t);
}

/// The first char boundary after byte `i` of the UTF-8 text `t`, or the end
/// of the text.
pub open spec fn next_boundary(t: Seq<u8>, i: int) -> int
    decreases t.len() - i,
{
    if i + 1 >= t.len() || !is_continuation_byte(t[i + 1]) {
        if i + 1 <= t.len() {
            i + 1
        } else {
            t.len() as int
        }
    } else {
        next_boundary(t, i + 1)
    }
}

/// What the engine is asked to do next in a global scan.
pub enum ScanAction {
    /// Run one match attempt at byte offset `start`. `retry` asks for the
    /// non-empty retry at the same offset (anchored, not empty at start).
    Exec { start: usize, retry: bool },
    /// The scan is over; `truncated` when it stopped at the match cap.
    Stop { truncated: bool },
    /// The scan failed on a resource budget.
    Fail(SolveError),
}

/// Outcome of one match attempt.
pub enum ExecOutcome {
    NoMatch,
    /// A match at byte offsets `start..end`.
    Matched { start: usize, end: usize },
}

/// One step of a global scan: whether to keep the match just found, and
/// what to do next.
pub struct ScanStep {
    pub record: bool,
    pub next: ScanAction,
}

/// One decision of a global scan at byte `start` (`retry`: the attempt was
/// the non-empty retry) with `count` matches kept, on the attempt's
/// `outcome`: the new position, retry flag and count, and the step taken.
///
/// - No match: after a failed retry advance one char and match normally;
///   otherwise the scan is over.
/// - A match when the cap is reached: stop, reported as truncated.
/// - A match that would put the kept matches x (groups + whole match) over
///   `MAX_CAPTURE_CELLS`: fail.
/// - Otherwise keep it. After an empty match, retry non-empty at its
///   position (nothing follows an empty match at the end); after a non-empty
///   match, go on at its end.
pub open spec fn scan_next(
    t: Seq<u8>,
    ngroups: nat,
    max: Option<usize>,
    cells: Option<nat>,
    start: usize,
    retry: bool,
    count: usize,
    outcome: ExecOutcome,
) -> (usize, bool, usize, ScanStep) {
    match outcome {
        ExecOutcome::NoMatch => if retry {
            let n = next_boundary(t, start as int) as usize;
            (n, false, count, ScanStep { record: false, next: ScanAction::Exec { start: n, retry: false } })
        } else {
            (start, retry, count, ScanStep { record: false, next: ScanAction::Stop { truncated: false } })
        },
        ExecOutcome::Matched { start: s, end: e } => if max matches Some(m) && count >= m {
            (start, retry, count, ScanStep { record: false, next: ScanAction::Stop { truncated: true } })
        } else if (cells matches Some(b) && (count + 1) * (ngroups + 1) > b) {
            (
                start,
                retry,
                count,
                ScanStep { record: false, next: ScanAction::Fail(SolveError::ResultTooLarge) },
            )
        } else if s == e {
            if e == t.len() {
                (start, retry, (count + 1) as usize, ScanStep { record: true, next: ScanAction::Stop { truncated: false } })
            } else {
                (e, true, (count + 1) as usize, ScanStep { record: true, next: ScanAction::Exec { start: e, retry: true } })
            }
        } else {
            (e, false, (count + 1) as usize, ScanStep { record: true, next: ScanAction::Exec { start: e, retry: false } })
        },
    }
}

/// The decisions of a global match scan (PHP `preg_match_all` iteration):
/// after an empty match, retry at its position asking for a non-empty
/// match; only when that fails advance by exactly one char. This finds
/// non-empty alternatives at the same position (`(?:|a)`), never leaves a
/// char boundary, and never loops on an empty match.
///
/// With a match cap the scan stops at the first match past it and reports
/// `truncated`; the capture-cell budget `MAX_CAPTURE_CELLS` is a hard error.
pub struct MatchScan {
    start: usize,
    retry: bool,
    count: usize,
    ngroups: usize,
    max_matches: Option<usize>,
    text: Ghost<Seq<u8>>,
}

impl MatchScan {
    /// The subject's UTF-8 bytes.
    pub closed spec fn text(&self) -> Seq<u8> {
        self.text@
    }

    /// Byte offset of the next match attempt.
    pub closed spec fn start(&self) -> usize {
        self.start
    }

    /// Whether the next attempt is the non-empty retry.
    pub closed spec fn retry(&self) -> bool {
        self.retry
    }

    /// Matches kept so far.
    pub closed spec fn count(&self) -> usize {
        self.count
    }

    pub closed spec fn spec_ngroups(&self) -> usize {
        self.ngroups
    }

    pub closed spec fn max_matches(&self) -> Option<usize> {
        self.max_matches
    }

    /// Progress measure: grows with every step that asks for another
    /// attempt.
    pub open spec fn progress(&self) -> int {
        2 * self.start() + if self.retry() {
            1int
        } else {
            0
        }
    }

    #[verifier::type_invariant]
    spec fn scan_wf(&self) -> bool {
        &&& valid_utf8(self.text@)
        &&& is_char_boundary(self.text@, self.start as int)
        &&& self.start <= self.text@.len()
        &&& self.retry ==> self.start < self.text@.len()
        &&& self.count * (self.ngroups + 1) <= MAX_CAPTURE_CELLS
        &&& self.max_matches matches Some(m) ==> self.count <= m
    }

    /// A scan of `subject` for a pattern with `ngroups` groups, capped at
    /// `max_matches` matches when given.
    pub fn new(subject: &str, ngroups: usize, max_matches: Option<usize>) -> (scan: Self)
        ensures
            scan.text() == subject.spec_bytes(),
            scan.start() == 0,
            !scan.retry(),
            scan.count() == 0,
            scan.spec_ngroups() == ngroups,
            scan.max_matches() == max_matches,
    {
        proof {
            is_char_boundary_start_end_of_seq(subject.spec_bytes());
            assert(0 * (ngroups + 1) == 0);
        }
        MatchScan {
            start: 0,
            retry: false,
            count: 0,
            ngroups,
            max_matches,
            text: Ghost(subject.spec_bytes()),
        }
    }

    /// The first attempt: at byte 0.
    pub fn first_action(&self) -> (a: ScanAction)
        ensures
            a == (ScanAction::Exec { start: self.start(), retry: self.retry() }),
            is_char_boundary(self.text(), self.start() as int),
            self.start() <= self.text().len(),
    {
        proof {
            use_type_invariant(self);
        }
        ScanAction::Exec { start: self.start, retry: self.retry }
    }

    /// Decide on the outcome of the attempt last asked for.
    pub fn on_outcome(&mut self, subject: &str, outcome: ExecOutcome) -> (step: ScanStep)
        requires
            subject.spec_bytes() == old(self).text(),
            outcome matches ExecOutcome::Matched { start, end } ==> {
                &&& old(self).start() <= start <= end <= subject.spec_bytes().len()
                &&& is_char_boundary(subject.spec_bytes(), end as int)
                &&& old(self).retry() ==> start < end
            },
        ensures
            final(self).text() == old(self).text(),
            final(self).spec_ngroups() == old(self).spec_ngroups(),
            final(self).max_matches() == old(self).max_matches(),
            // every attempt asked for starts on a char boundary inside the
            // subject, and strictly further on than the one before: the scan
            // never hangs
            step.next matches ScanAction::Exec { start, retry } ==> {
                &&& start == final(self).start()
                &&& retry == final(self).retry()
                &&& is_char_boundary(old(self).text(), start as int)
                &&& start <= old(self).text().len()
                &&& final(self).progress() > old(self).progress()
                &&& final(self).progress() <= 2 * old(self).text().len() + 1
            },
            // the kept matches respect the match cap and the cell budget
            final(self).count() * (final(self).spec_ngroups() + 1) <= MAX_CAPTURE_CELLS,
            final(self).max_matches() matches Some(m) ==> final(self).count() <= m,
            // the decision itself
            (final(self).start(), final(self).retry(), final(self).count(), step) == scan_next(
                old(self).text(),
                old(self).spec_ngroups() as nat,
                old(self).max_matches(),
                Some(MAX_CAPTURE_CELLS as nat),
                old(self).start(),
                old(self).retry(),
                old(self).count(),
                outcome,
            ),
    {
        proof {
            use_type_invariant(&*self);
        }
        let ghost t = self.text@;
        match outcome {
            ExecOutcome::NoMatch => {
                if !self.retry {
                    return ScanStep { record: false, next: ScanAction::Stop { truncated: false } };
                }
                // The non-empty retry at the same offset failed: advance one
                // char, not one byte, then resume normal matching.
                let bytes = subject.as_bytes();
                let n = bytes.len();
                let mut next = self.start + 1;
                proof {
                    lemma_next_boundary_unfold(t, self.start as int);
                }
                while next < n && 0x80 <= bytes[next] && bytes[next] <= 0xbf
                    invariant
                        bytes@ == t,
                        n == t.len(),
                        valid_utf8(t),
                        self.start < next <= t.len(),
                        next_boundary(t, self.start as int) == next_boundary(t, next - 1),
                    decreases t.len() - next,
                {
                    proof {
                        lemma_next_boundary_unfold(t, next as int);
                    }
                    next = next + 1;
                }
                proof {
                    if next < t.len() {
                        is_char_boundary_iff_not_is_continuation_byte(t, next as int);
                    } else {
                        is_char_boundary_start_end_of_seq(t);
                    }
                }
                self.retry = false;
                self.start = next;
                ScanStep { record: false, next: ScanAction::Exec { start: next, retry: false } }
            },
            ExecOutcome::Matched { start, end } => {
                if let Some(max) = self.max_matches {
                    if self.count >= max {
                        return ScanStep {
                            record: false,
                            next: ScanAction::Stop { truncated: true },
                        };
                    }
                }
                // Cell budget: matches x (groups + whole match), with
                // overflow counted as over budget.
                let per = if self.ngroups < usize::MAX {
                    self.ngroups + 1
                } else {
                    usize::MAX
                };
                proof {
                    assert(self.count <= self.count * (self.ngroups + 1)) by (nonlinear_arith);
                }
                let kept = self.count + 1;
                if per > MAX_CAPTURE_CELLS || kept > MAX_CAPTURE_CELLS / per {
                    proof {
                        assert(kept * per > MAX_CAPTURE_CELLS) by (nonlinear_arith)
                            requires
                                per > MAX_CAPTURE_CELLS || kept > MAX_CAPTURE_CELLS / per,
                                kept >= 1,
                                per >= 1,
                        ;
                        assert((self.count + 1) * (self.ngroups + 1) >= kept * per)
                            by (nonlinear_arith)
                            requires
                                kept == self.count + 1,
                                per <= self.ngroups + 1,
                                kept >= 1,
                        ;
                    }
                    return ScanStep {
                        record: false,
                        next: ScanAction::Fail(SolveError::ResultTooLarge),
                    };
                }
                proof {
                    assert(kept * per <= MAX_CAPTURE_CELLS) by (nonlinear_arith)
                        requires
                            per <= MAX_CAPTURE_CELLS,
                            kept <= MAX_CAPTURE_CELLS / per,
                            per >= 1,
                    ;
                }
                self.count = kept;
                if start == end {
                    if end == subject.as_bytes().len() {
                        // an empty match at the end: nothing can follow
                        return ScanStep {
                            record: true,
                            next: ScanAction::Stop { truncated: false },
                        };
                    }
                    // retry non-empty at the empty match's position
                    self.start = end;
                    self.retry = true;
                    ScanStep { record: true, next: ScanAction::Exec { start: end, retry: true } }
                } else {
                    self.retry = false;
                    self.start = end;
                    ScanStep { record: true, next: ScanAction::Exec { start: end, retry: false } }
                }
            },
        }
    }
}

proof fn lemma_next_boundary_unfold(t: Seq<u8>, i: int)
    ensures
        next_boundary(t, i) == if i + 1 >= t.len() || !is_continuation_byte(t[i + 1]) {
            if i + 1 <= t.len() {
                i + 1
            } else {
                t.len() as int
            }
        } else {
            next_boundary(t, i + 1)
        },
{
}

/// The byte range a match outcome reports.
pub open spec fn outcome_span(o: ExecOutcome) -> (usize, usize) {
    match o {
        ExecOutcome::Matched { start, end } => (start, end),
        ExecOutcome::NoMatch => (0, 0),
    }
}

/// A whole global scan of `t` from byte `start` with `count` matches kept,
/// when the attempt at `(start, retry)` has the outcome `engine(start,
/// retry)`: the matches kept and how the scan ends, as the steps of
/// `scan_next` (and so `MatchScan::on_outcome`) take them. `None` when it
/// needs more than `fuel` attempts.
pub open spec fn scan_run(
    t: Seq<u8>,
    ngroups: nat,
    max: Option<usize>,
    cells: Option<nat>,
    engine: spec_fn(usize, bool) -> ExecOutcome,
    start: usize,
    retry: bool,
    count: usize,
    fuel: nat,
) -> Option<(Seq<(usize, usize)>, ScanAction)>
    decreases fuel,
{
    if fuel == 0 {
        None
    } else {
        let o = engine(start, retry);
        let n = scan_next(t, ngroups, max, cells, start, retry, count, o);
        let kept = if n.3.record {
            seq![outcome_span(o)]
        } else {
            Seq::empty()
        };
        match n.3.next {
            ScanAction::Exec { .. } => match scan_run(
                t,
                ngroups,
                max,
                cells,
                engine,
                n.0,
                n.1,
                n.2,
                (fuel - 1) as nat,
            ) {
                Some(rest) => Some((kept + rest.0, rest.1)),
                None => None,
            },
            other => Some((kept, other)),
        }
    }
}

/// What a scan keeps when capped at `m` matches, `count` of them already
/// kept, against what the uncapped scan keeps (`w`).
pub open spec fn capped_result(w: Seq<(usize, usize)>, m: usize, count: usize) -> (
    Seq<(usize, usize)>,
    ScanAction,
) {
    if w.len() <= m - count {
        (w, ScanAction::Stop { truncated: false })
    } else {
        (w.take(m - count), ScanAction::Stop { truncated: true })
    }
}

proof fn lemma_capped_prefix(
    t: Seq<u8>,
    ngroups: nat,
    cells: Option<nat>,
    m: usize,
    engine: spec_fn(usize, bool) -> ExecOutcome,
    start: usize,
    retry: bool,
    count: usize,
    fuel: nat,
    w: Seq<(usize, usize)>,
)
    requires
        count <= m,
        scan_run(t, ngroups, None, cells, engine, start, retry, count, fuel) == Some(
            (w, ScanAction::Stop { truncated: false }),
        ),
    ensures
        scan_run(t, ngroups, Some(m), cells, engine, start, retry, count, fuel) == Some(
            capped_result(w, m, count),
        ),
    decreases fuel,
{
    let o = engine(start, retry);
    let nu = scan_next(t, ngroups, None, cells, start, retry, count, o);
    let nc = scan_next(t, ngroups, Some(m), cells, start, retry, count, o);
    if o is NoMatch {
        assert(nu == nc);
        if nu.3.next is Exec {
            lemma_capped_prefix(t, ngroups, cells, m, engine, nu.0, nu.1, nu.2, (fuel - 1) as nat, w);
            assert(Seq::<(usize, usize)>::empty() + w =~= w);
            let c = capped_result(w, m, count);
            assert(Seq::<(usize, usize)>::empty() + c.0 =~= c.0);
        } else {
            assert(w =~= Seq::<(usize, usize)>::empty());
        }
    } else if count >= m {
        // the uncapped scan keeps this match (it does not fail), the capped
        // one stops before it
        assert(nc.3.next == (ScanAction::Stop { truncated: true }));
        assert(nu.3.record);
        assert(w.len() >= 1);
        assert(w.take(0) =~= Seq::<(usize, usize)>::empty());
    } else {
        assert(nu == nc);
        let p = outcome_span(o);
        if nu.3.next is Exec {
            let rest = scan_run(t, ngroups, None, cells, engine, nu.0, nu.1, nu.2, (fuel - 1) as nat)->0;
            assert(w == seq![p] + rest.0);
            lemma_capped_prefix(
                t,
                ngroups,
                cells,
                m,
                engine,
                nu.0,
                nu.1,
                nu.2,
                (fuel - 1) as nat,
                rest.0,
            );
            if rest.0.len() > m - (count + 1) {
                assert(seq![p] + rest.0.take(m - (count + 1)) =~= w.take(m - count));
            }
        } else {
            assert(w == seq![p]);
        }
    }
}

/// A capped scan keeps a prefix of what the uncapped scan keeps, and says
/// whether it was cut: if the uncapped scan of the same outcomes ends
/// normally with the matches `w`, the scan capped at `m` ends with all of
/// `w` when there are at most `m`, and otherwise with its first `m` and
/// `truncated` set.
pub proof fn law_capped_scan_is_prefix(
    t: Seq<u8>,
    ngroups: nat,
    cells: Option<nat>,
    m: usize,
    engine: spec_fn(usize, bool) -> ExecOutcome,
    fuel: nat,
    w: Seq<(usize, usize)>,
)
    requires
        scan_run(t, ngroups, None, cells, engine, 0, false, 0, fuel) == Some(
            (w, ScanAction::Stop { truncated: false }),
        ),
    ensures
        scan_run(t, ngroups, Some(m), cells, engine, 0, false, 0, fuel) == Some(capped_result(w, m, 0)),
{
    lemma_capped_prefix(t, ngroups, cells, m, engine, 0, false, 0, fuel, w);
}

/// Over a whole scan with the cell budget `b` (`MAX_CAPTURE_CELLS` for
/// `MatchScan`), the kept matches times (groups + whole match) stay
/// within it, and a scan that fails, fails with
/// `ResultTooLarge` exactly because one more match would exceed it; no
/// other failure exists.
pub proof fn law_scan_cell_budget(
    t: Seq<u8>,
    ngroups: nat,
    b: nat,
    max: Option<usize>,
    engine: spec_fn(usize, bool) -> ExecOutcome,
    start: usize,
    retry: bool,
    count: usize,
    fuel: nat,
    w: Seq<(usize, usize)>,
    end: ScanAction,
)
    requires
        b <= usize::MAX,
        count * (ngroups + 1) <= b,
        scan_run(t, ngroups, max, Some(b), engine, start, retry, count, fuel) == Some((w, end)),
    ensures
        (count + w.len()) * (ngroups + 1) <= b,
        end is Fail ==> end == ScanAction::Fail(SolveError::ResultTooLarge) && (count + w.len() + 1)
            * (ngroups + 1) > b,
        !(end is Exec),
    decreases fuel,
{
    let o = engine(start, retry);
    let n = scan_next(t, ngroups, max, Some(b), start, retry, count, o);
    assert(count + 1 <= (count + 1) * (ngroups + 1)) by (nonlinear_arith);
    if n.3.next is Exec {
        let rest = scan_run(t, ngroups, max, Some(b), engine, n.0, n.1, n.2, (fuel - 1) as nat)->0;
        law_scan_cell_budget(t, ngroups, b, max, engine, n.0, n.1, n.2, (fuel - 1) as nat, rest.0, rest.1);
        if n.3.record {
            assert(w.len() == rest.0.len() + 1);
            assert(n.2 == count + 1);
        } else {
            assert(w == rest.0);
            assert(n.2 == count);
        }
    }
}

/// The scan's one-char advance from a char boundary `i` inside valid UTF-8
/// lands on the next char boundary: past `i`, inside the text, and with no
/// char boundary skipped in between.
pub proof fn law_next_boundary(t: Seq<u8>, i: int)
    requires
        valid_utf8(t),
        0 <= i < t.len(),
    ensures
        i < next_boundary(t, i) <= t.len(),
        is_char_boundary(t, next_boundary(t, i)),
        forall|j: int| i < j < next_boundary(t, i) ==> !is_char_boundary(t, j),
    decreases t.len() - i,
{
    if i + 1 >= t.len() || !is_continuation_byte(t[i + 1]) {
        if i + 1 >= t.len() {
            is_char_boundary_start_end_of_seq(t);
        } else {
            is_char_boundary_iff_not_is_continuation_byte(t, i + 1);
        }
    } else {
        law_next_boundary(t, i + 1);
        is_char_boundary_iff_not_is_continuation_byte(t, i + 1);
    }
}

proof fn lemma_next_boundary_after(t: Seq<u8>, i: int)
    requires
        0 <= i < t.len(),
    ensures
        i < next_boundary(t, i) <= t.len(),
    decreases t.len() - i,
{
    if !(i + 1 >= t.len() || !is_continuation_byte(t[i + 1])) {
        lemma_next_boundary_after(t, i + 1);
    }
}

/// The engine reports every match inside the text, at or after the attempt's
/// offset, ending on a char boundary, and non-empty for the retry.
pub open spec fn engine_consistent(t: Seq<u8>, engine: spec_fn(usize, bool) -> ExecOutcome) -> bool {
    forall|a: usize, r: bool|
        #[trigger] engine(a, r) matches ExecOutcome::Matched { start, end } ==> {
            &&& a <= start <= end <= t.len()
            &&& is_char_boundary(t, end as int)
            &&& r ==> start < end
        }
}

/// Over a whole scan the kept matches come in text order without
/// overlapping, no span is kept twice, all lie at or after the scan's
/// start, and after an empty match at `p` the next kept match is non-empty
/// at `p` or starts after `p`.
pub proof fn law_scan_spans_ordered(
    t: Seq<u8>,
    ngroups: nat,
    cells: Option<nat>,
    max: Option<usize>,
    engine: spec_fn(usize, bool) -> ExecOutcome,
    start: usize,
    retry: bool,
    count: usize,
    fuel: nat,
    w: Seq<(usize, usize)>,
    end: ScanAction,
)
    requires
        t.len() <= usize::MAX,
        engine_consistent(t, engine),
        start <= t.len(),
        retry ==> start < t.len(),
        scan_run(t, ngroups, max, cells, engine, start, retry, count, fuel) == Some((w, end)),
    ensures
        forall|k: int| 0 <= k < w.len() ==> start <= #[trigger] w[k].0 <= w[k].1 <= t.len(),
        forall|k: int|
            0 <= k < w.len() - 1 ==> #[trigger] w[k].1 <= w[k + 1].0 && w[k] != w[k + 1],
        forall|k: int|
            0 <= k < w.len() - 1 && #[trigger] w[k].0 == w[k].1 ==> w[k + 1].0 > w[k].0 || w[k
                + 1].0 < w[k + 1].1,
        retry && w.len() > 0 ==> w[0].0 > start || w[0].0 < w[0].1,
    decreases fuel,
{
    let o = engine(start, retry);
    let n = scan_next(t, ngroups, max, cells, start, retry, count, o);
    if o is NoMatch && retry {
        lemma_next_boundary_after(t, start as int);
    }
    if n.3.next is Exec {
        let rest = scan_run(t, ngroups, max, cells, engine, n.0, n.1, n.2, (fuel - 1) as nat)->0;
        law_scan_spans_ordered(
            t,
            ngroups,
            cells,
            max,
            engine,
            n.0,
            n.1,
            n.2,
            (fuel - 1) as nat,
            rest.0,
            rest.1,
        );
        if n.3.record {
            let p = outcome_span(o);
            assert(w =~= seq![p] + rest.0);
            assert forall|k: int| 0 <= k < w.len() - 1 implies #[trigger] w[k].1 <= w[k + 1].0
                && w[k] != w[k + 1] by {
                if k > 0 {
                    assert(w[k] == rest.0[k - 1] && w[k + 1] == rest.0[k]);
                }
            }
            assert forall|k: int|
                0 <= k < w.len() - 1 && #[trigger] w[k].0 == w[k].1 implies w[k + 1].0 > w[k].0
                || w[k + 1].0 < w[k + 1].1 by {
                if k > 0 {
                    assert(w[k] == rest.0[k - 1] && w[k + 1] == rest.0[k]);
                }
            }
        } else {
            assert(w == rest.0);
        }
    }
}

proof fn lemma_capped_attempts(
    t: Seq<u8>,
    ngroups: nat,
    cells: Option<nat>,
    n: usize,
    engine: spec_fn(usize, bool) -> ExecOutcome,
    start: usize,
    retry: bool,
    count: usize,
    fuel: nat,
)
    requires
        count <= n,
        fuel >= 2 * (n - count) + 1 + if retry {
            1int
        } else {
            0
        },
    ensures
        scan_run(t, ngroups, Some(n), cells, engine, start, retry, count, fuel) is Some,
    decreases fuel,
{
    let o = engine(start, retry);
    let x = scan_next(t, ngroups, Some(n), cells, start, retry, count, o);
    if x.3.next is Exec {
        lemma_capped_attempts(t, ngroups, cells, n, engine, x.0, x.1, x.2, (fuel - 1) as nat);
    }
}

/// A scan capped at `n` matches ends after at most `2n + 2` match attempts,
/// whatever the engine answers: a kept match costs at most two attempts
/// (the one that found it and a failed retry after it), and the scan stops
/// at the first match past the cap.
pub proof fn law_capped_scan_attempts(
    t: Seq<u8>,
    ngroups: nat,
    cells: Option<nat>,
    n: usize,
    engine: spec_fn(usize, bool) -> ExecOutcome,
)
    ensures
        scan_run(t, ngroups, Some(n), cells, engine, 0, false, 0, (2 * n + 2) as nat) is Some,
{
    lemma_capped_attempts(t, ngroups, cells, n, engine, 0, false, 0, (2 * n + 2) as nat);
}

proof fn lemma_scan_attempts(
    t: Seq<u8>,
    ngroups: nat,
    max: Option<usize>,
    cells: Option<nat>,
    engine: spec_fn(usize, bool) -> ExecOutcome,
    start: usize,
    retry: bool,
    count: usize,
    fuel: nat,
)
    requires
        t.len() <= usize::MAX,
        engine_consistent(t, engine),
        start <= t.len(),
        retry ==> start < t.len(),
        fuel >= 2 * t.len() + 2 - (2 * start + if retry {
            1int
        } else {
            0
        }),
    ensures
        scan_run(t, ngroups, max, cells, engine, start, retry, count, fuel) is Some,
    decreases fuel,
{
    let o = engine(start, retry);
    let x = scan_next(t, ngroups, max, cells, start, retry, count, o);
    if o is NoMatch && retry {
        lemma_next_boundary_after(t, start as int);
    }
    if x.3.next is Exec {
        lemma_scan_attempts(t, ngroups, max, cells, engine, x.0, x.1, x.2, (fuel - 1) as nat);
    }
}

/// A scan of `t` ends after at most `2 * t.len() + 2` match attempts when
/// the engine reports its matches consistently: every attempt lies strictly
/// further on than the one before.
pub proof fn law_scan_attempts(
    t: Seq<u8>,
    ngroups: nat,
    max: Option<usize>,
    cells: Option<nat>,
    engine: spec_fn(usize, bool) -> ExecOutcome,
)
    requires
        t.len() <= usize::MAX,
        engine_consistent(t, engine),
    ensures
        scan_run(t, ngroups, max, cells, engine, 0, false, 0, (2 * t.len() + 2) as nat) is Some,
{
    lemma_scan_attempts(t, ngroups, max, cells, engine, 0, false, 0, (2 * t.len() + 2) as nat);
}

proof fn lemma_budget_lockstep(
    t: Seq<u8>,
    ngroups: nat,
    max: Option<usize>,
    b: nat,
    engine: spec_fn(usize, bool) -> ExecOutcome,
    start: usize,
    retry: bool,
    count: usize,
    fuel: nat,
    w: Seq<(usize, usize)>,
    end: ScanAction,
)
    requires
        b <= usize::MAX,
        count * (ngroups + 1) <= b,
        scan_run(t, ngroups, max, None, engine, start, retry, count, fuel) == Some((w, end)),
        !(end is Fail),
    ensures
        if (count + w.len()) * (ngroups + 1) <= b {
            scan_run(t, ngroups, max, Some(b), engine, start, retry, count, fuel) == Some((w, end))
        } else {
            scan_run(t, ngroups, max, Some(b), engine, start, retry, count, fuel) matches Some(
                (p, e),
            ) && e == ScanAction::Fail(SolveError::ResultTooLarge) && p.len() < w.len() && p
                == w.take(p.len() as int)
        },
    decreases fuel,
{
    let o = engine(start, retry);
    let nu = scan_next(t, ngroups, max, None, start, retry, count, o);
    let nb = scan_next(t, ngroups, max, Some(b), start, retry, count, o);
    assert(count + 1 <= (count + 1) * (ngroups + 1)) by (nonlinear_arith);
    if nu.3.record && (count + 1) * (ngroups + 1) > b {
        assert((count + w.len()) * (ngroups + 1) >= (count + 1) * (ngroups + 1))
            by (nonlinear_arith)
            requires
                w.len() >= 1,
        ;
        assert(w.take(0) =~= Seq::<(usize, usize)>::empty());
    } else {
        assert(nu == nb);
        if nu.3.next is Exec {
            let rest = scan_run(t, ngroups, max, None, engine, nu.0, nu.1, nu.2, (fuel - 1) as nat)->0;
            lemma_budget_lockstep(
                t,
                ngroups,
                max,
                b,
                engine,
                nu.0,
                nu.1,
                nu.2,
                (fuel - 1) as nat,
                rest.0,
                rest.1,
            );
            if nu.3.record {
                let q = outcome_span(o);
                assert(w == seq![q] + rest.0);
                assert(count + w.len() == nu.2 + rest.0.len());
                let rb = scan_run(t, ngroups, max, Some(b), engine, nu.0, nu.1, nu.2, (fuel - 1) as nat);
                if (count + w.len()) * (ngroups + 1) > b {
                    let pp = (rb->0).0;
                    assert(seq![q] + pp =~= w.take(pp.len() + 1int));
                }
            } else {
                assert(w == rest.0);
            }
        }
    }
}

/// The cell budget decides a whole scan exactly: if the scan without a
/// budget ends normally keeping the matches `w`, the scan under the budget
/// `b` gives the same result when `|w| x (groups + 1)` fits in `b`, and
/// otherwise fails with `ResultTooLarge`, the matches it kept being only a
/// prefix of `w` (and not part of the answer).
pub proof fn law_scan_cell_budget_exact(
    t: Seq<u8>,
    ngroups: nat,
    max: Option<usize>,
    b: nat,
    engine: spec_fn(usize, bool) -> ExecOutcome,
    fuel: nat,
    w: Seq<(usize, usize)>,
    end: ScanAction,
)
    requires
        b <= usize::MAX,
        scan_run(t, ngroups, max, None, engine, 0, false, 0, fuel) == Some((w, end)),
        !(end is Fail),
    ensures
        if w.len() * (ngroups + 1) <= b {
            scan_run(t, ngroups, max, Some(b), engine, 0, false, 0, fuel) == Some((w, end))
        } else {
            scan_run(t, ngroups, max, Some(b), engine, 0, false, 0, fuel) matches Some((p, e)) && e
                == ScanAction::Fail(SolveError::ResultTooLarge) && p.len() < w.len()
        },
{
    lemma_budget_lockstep(t, ngroups, max, b, engine, 0, false, 0, fuel, w, end);
}

/// The first span a scan keeps is the answer of its first attempt, a plain
/// match at byte 0, so a single first-match call agrees with the global
/// scan: no match there means the scan keeps nothing.
pub proof fn law_first_span_is_first_attempt(
    t: Seq<u8>,
    ngroups: nat,
    max: Option<usize>,
    b: nat,
    engine: spec_fn(usize, bool) -> ExecOutcome,
    fuel: nat,
    w: Seq<(usize, usize)>,
    end: ScanAction,
)
    requires
        max matches Some(m) ==> m > 0,
        ngroups + 1 <= b,
        scan_run(t, ngroups, max, Some(b), engine, 0, false, 0, fuel) == Some((w, end)),
    ensures
        engine(0, false) is NoMatch ==> w.len() == 0,
        engine(0, false) matches ExecOutcome::Matched { start, end: e } ==> w.len() > 0 && w[0]
            == (start, e),
{
    let o = engine(0, false);
    let x = scan_next(t, ngroups, max, Some(b), 0, false, 0, o);
    if x.3.next is Exec && x.3.record {
        let rest = scan_run(t, ngroups, max, Some(b), engine, x.0, x.1, x.2, (fuel - 1) as nat)->0;
        assert(w == seq![outcome_span(o)] + rest.0);
    }
}

/// Compile options selected by the flags string. UTF, UCP (Unicode `\w`,
/// `\d`, `\s`, `\b`) and NEVER_BACKSLASH_C are always on, as PHP's `/u`
/// modifier sets them; `u` is accepted and changes nothing.
#[derive(Debug, Clone, Copy, PartialEq, Eq)]
pub struct CompileOptions {
    /// `g`: global matching (not a PCRE2 option).
    pub global: bool,
    /// `i`: PCRE2_CASELESS.
    pub caseless: bool,
    /// `m`: PCRE2_MULTILINE.
    pub multiline: bool,
    /// `n`: PCRE2_NO_AUTO_CAPTURE.
    pub no_auto_capture: bool,
    /// `s`: PCRE2_DOTALL.
    pub dotall: bool,
    /// `x`: PCRE2_EXTENDED.
    pub extended: bool,
    /// `U`: PCRE2_UNGREEDY.
    pub ungreedy: bool,
    /// `A`: PCRE2_ANCHORED.
    pub anchored: bool,
    /// `D`: PCRE2_DOLLAR_ENDONLY.
    pub dollar_endonly: bool,
    /// `J`: PCRE2_DUPNAMES.
    pub dupnames: bool,
}

/// Flag chars that are accepted: the options above, `u`, and the ones PHP
/// ignores (`S` study hint, `X`, whitespace).
pub open spec fn is_known_flag(c: char) -> bool {
    c == 'g' || c == 'i' || c == 'm' || c == 'n' || c == 's' || c == 'x' || c == 'u' || c == 'U'
        || c == 'A' || c == 'D' || c == 'J' || c == ' ' || c == '\n' || c == '\r' || c == 'S'
        || c == 'X'
}

/// Whether `c` occurs in the flags.
pub open spec fn has_flag(flags: Seq<char>, c: char) -> bool {
    exists|j: int| 0 <= j < flags.len() && flags[j] == c
}

/// The first flag char that is not a known modifier, if any.
pub open spec fn first_unknown(flags: Seq<char>) -> Option<char>
    decreases flags.len(),
{
    if flags.len() == 0 {
        None
    } else if !is_known_flag(flags[0]) {
        Some(flags[0])
    } else {
        first_unknown(flags.drop_first())
    }
}

/// PHP's "Unknown modifier" message for flag char `c`.
pub open spec fn unknown_modifier_message(c: char) -> Seq<char> {
    "Unknown modifier '"@ + seq![c] + "'"@
}

/// Message for a pattern over `MAX_PATTERN_BYTES`.
pub open spec fn pattern_too_long_message() -> Seq<char> {
    "Compilation failed: pattern too long at offset 0"@
}

/// The options the flags select.
pub open spec fn options_spec(flags: Seq<char>) -> CompileOptions {
    CompileOptions {
        global: has_flag(flags, 'g'),
        caseless: has_flag(flags, 'i'),
        multiline: has_flag(flags, 'm'),
        no_auto_capture: has_flag(flags, 'n'),
        dotall: has_flag(flags, 's'),
        extended: has_flag(flags, 'x'),
        ungreedy: has_flag(flags, 'U'),
        anchored: has_flag(flags, 'A'),
        dollar_endonly: has_flag(flags, 'D'),
        dupnames: has_flag(flags, 'J'),
    }
}

/// The compile error a pattern of `pattern_len` bytes with these flags gets
/// before it reaches PCRE2: too long, or the first unknown flag.
pub open spec fn compile_error_message(pattern_len: nat, flags: Seq<char>) -> Option<Seq<char>> {
    if pattern_len > MAX_PATTERN_BYTES {
        Some(pattern_too_long_message())
    } else {
        match first_unknown(flags) {
            Some(c) => Some(unknown_modifier_message(c)),
            None => None,
        }
    }
}

/// Known flags before `i` do not change which flag is the first unknown.
proof fn lemma_first_unknown_skip(flags: Seq<char>, i: int)
    requires
        0 <= i <= flags.len(),
        forall|j: int| 0 <= j < i ==> is_known_flag(#[trigger] flags[j]),
    ensures
        first_unknown(flags) == first_unknown(flags.skip(i)),
    decreases i,
{
    if i == 0 {
        assert(flags.skip(0) =~= flags);
    } else {
        assert(is_known_flag(flags[0]));
        assert(flags.drop_first().skip(i - 1) =~= flags.skip(i));
        assert forall|j: int| 0 <= j < i - 1 implies is_known_flag(
            #[trigger] flags.drop_first()[j],
        ) by {
            assert(flags.drop_first()[j] == flags[j + 1]);
        }
        lemma_first_unknown_skip(flags.drop_first(), i - 1);
    }
}

/// Each option is selected exactly when its flag char occurs in the flags,
/// wherever and however often: `g` global, `i` caseless, `m` multiline, `n`
/// no auto capture, `s` dotall, `x` extended, `U` ungreedy, `A` anchored,
/// `D` dollar end only, `J` duplicate names.
pub proof fn law_flags_select_options(f: Seq<char>)
    ensures
        options_spec(f).global == (exists|j: int| 0 <= j < f.len() && f[j] == 'g'),
        options_spec(f).caseless == (exists|j: int| 0 <= j < f.len() && f[j] == 'i'),
        options_spec(f).multiline == (exists|j: int| 0 <= j < f.len() && f[j] == 'm'),
        options_spec(f).no_auto_capture == (exists|j: int| 0 <= j < f.len() && f[j] == 'n'),
        options_spec(f).dotall == (exists|j: int| 0 <= j < f.len() && f[j] == 's'),
        options_spec(f).extended == (exists|j: int| 0 <= j < f.len() && f[j] == 'x'),
        options_spec(f).ungreedy == (exists|j: int| 0 <= j < f.len() && f[j] == 'U'),
        options_spec(f).anchored == (exists|j: int| 0 <= j < f.len() && f[j] == 'A'),
        options_spec(f).dollar_endonly == (exists|j: int| 0 <= j < f.len() && f[j] == 'D'),
        options_spec(f).dupnames == (exists|j: int| 0 <= j < f.len() && f[j] == 'J'),
{
}

/// A pattern within the size limit is refused before compiling exactly when
/// its flags hold a char other than `g i m n s x u U A D J S X`, space, LF
/// or CR, and then the message names the first such char.
pub proof fn law_unknown_modifier(pattern_len: nat, f: Seq<char>)
    requires
        pattern_len <= MAX_PATTERN_BYTES,
    ensures
        (forall|j: int|
            0 <= j < f.len() ==> {
                let c = #[trigger] f[j];
                c == 'g' || c == 'i' || c == 'm' || c == 'n' || c == 's' || c == 'x' || c == 'u'
                    || c == 'U' || c == 'A' || c == 'D' || c == 'J' || c == 'S' || c == 'X' || c
                    == ' ' || c == '\n' || c == '\r'
            }) ==> compile_error_message(pattern_len, f) is None,
        forall|k: int|
            0 <= k < f.len() && (forall|j: int|
                0 <= j < k ==> {
                    let c = #[trigger] f[j];
                    c == 'g' || c == 'i' || c == 'm' || c == 'n' || c == 's' || c == 'x' || c
                        == 'u' || c == 'U' || c == 'A' || c == 'D' || c == 'J' || c == 'S' || c
                        == 'X' || c == ' ' || c == '\n' || c == '\r'
                }) && !({
                let c = f[k];
                c == 'g' || c == 'i' || c == 'm' || c == 'n' || c == 's' || c == 'x' || c == 'u'
                    || c == 'U' || c == 'A' || c == 'D' || c == 'J' || c == 'S' || c == 'X' || c
                    == ' ' || c == '\n' || c == '\r'
            }) ==> compile_error_message(pattern_len, f) == Some(
                "Unknown modifier '"@ + seq![f[k]] + "'"@,
            ),
{
    if forall|j: int|
        0 <= j < f.len() ==> {
            let c = #[trigger] f[j];
            c == 'g' || c == 'i' || c == 'm' || c == 'n' || c == 's' || c == 'x' || c == 'u' || c
                == 'U' || c == 'A' || c == 'D' || c == 'J' || c == 'S' || c == 'X' || c == ' '
                || c == '\n' || c == '\r'
        } {
        lemma_first_unknown_skip(f, f.len() as int);
        assert(f.skip(f.len() as int).len() == 0);
    }
    assert forall|k: int|
        0 <= k < f.len() && (forall|j: int|
            0 <= j < k ==> {
                let c = #[trigger] f[j];
                c == 'g' || c == 'i' || c == 'm' || c == 'n' || c == 's' || c == 'x' || c == 'u'
                    || c == 'U' || c == 'A' || c == 'D' || c == 'J' || c == 'S' || c == 'X' || c
                    == ' ' || c == '\n' || c == '\r'
            }) && !({
            let c = f[k];
            c == 'g' || c == 'i' || c == 'm' || c == 'n' || c == 's' || c == 'x' || c == 'u' || c
                == 'U' || c == 'A' || c == 'D' || c == 'J' || c == 'S' || c == 'X' || c == ' '
                || c == '\n' || c == '\r'
        }) implies compile_error_message(pattern_len, f) == Some(
        "Unknown modifier '"@ + seq![f[k]] + "'"@,
    ) by {
        lemma_first_unknown_skip(f, k);
        assert(f.skip(k)[0] == f[k]);
    }
}

/// Check the pattern size and read the flags string (regexr flavor, e.g.
/// "gimsxu") into compile options, the way PHP reads modifiers: `g` only
/// selects global matching, and any char that is not a known modifier is an
/// "Unknown modifier" compile error naming the first such char.
pub fn compile_options(pattern: &str, flags: &str) -> (r: Result<CompileOptions, SolveError>)
    ensures
        match r {
            Ok(o) => compile_error_message(pattern.spec_bytes().len(), flags@) is None && o
                == options_spec(flags@),
            Err(e) => e matches SolveError::RegexParse { message } && compile_error_message(
                pattern.spec_bytes().len(),
                flags@,
            ) == Some(message@),
        },
{
    if pattern.as_bytes().len() > MAX_PATTERN_BYTES {
        let mut message = String::new();
        message.push_str("Compilation failed: pattern too long at offset 0");
        assert(message@ =~= pattern_too_long_message());
        return Err(SolveError::RegexParse { message });
    }
    let cs = chars_of(flags);
    let mut o = CompileOptions {
        global: false,
        caseless: false,
        multiline: false,
        no_auto_capture: false,
        dotall: false,
        extended: false,
        ungreedy: false,
        anchored: false,
        dollar_endonly: false,
        dupnames: false,
    };
    let mut i: usize = 0;
    while i < cs.len()
        invariant
            cs@ == flags@,
            pattern.spec_bytes().len() <= MAX_PATTERN_BYTES,
            i <= cs@.len(),
            forall|j: int| 0 <= j < i ==> is_known_flag(#[trigger] cs@[j]),
            o.global == (exists|j: int| 0 <= j < i && cs@[j] == 'g'),
            o.caseless == (exists|j: int| 0 <= j < i && cs@[j] == 'i'),
            o.multiline == (exists|j: int| 0 <= j < i && cs@[j] == 'm'),
            o.no_auto_capture == (exists|j: int| 0 <= j < i && cs@[j] == 'n'),
            o.dotall == (exists|j: int| 0 <= j < i && cs@[j] == 's'),
            o.extended == (exists|j: int| 0 <= j < i && cs@[j] == 'x'),
            o.ungreedy == (exists|j: int| 0 <= j < i && cs@[j] == 'U'),
            o.anchored == (exists|j: int| 0 <= j < i && cs@[j] == 'A'),
            o.dollar_endonly == (exists|j: int| 0 <= j < i && cs@[j] == 'D'),
            o.dupnames == (exists|j: int| 0 <= j < i && cs@[j] == 'J'),
        decreases cs@.len() - i,
    {
        let c = cs[i];
        if c == 'g' {
            o.global = true;
        } else if c == 'i' {
            o.caseless = true;
        } else if c == 'm' {
            o.multiline = true;
        } else if c == 'n' {
            o.no_auto_capture = true;
        } else if c == 's' {
            o.dotall = true;
        } else if c == 'x' {
            o.extended = true;
        } else if c == 'U' {
            o.ungreedy = true;
        } else if c == 'A' {
            o.anchored = true;
        } else if c == 'D' {
            o.dollar_endonly = true;
        } else if c == 'J' {
            o.dupnames = true;
        } else if c == 'u' || c == ' ' || c == '\n' || c == '\r' || c == 'S' || c == 'X' {
            // `u` is always on; whitespace, `S` and `X` are ignored like PHP
        } else {
            // PHP's exact "Unknown modifier 'z'" wording, shown verbatim
            let mut message = String::new();
            message.push_str("Unknown modifier '");
            message.push(c);
            message.push('\'');
            proof {
                reveal_strlit("'");
                lemma_first_unknown_skip(flags@, i as int);
                assert(message@ =~= unknown_modifier_message(flags@[i as int]));
            }
            return Err(SolveError::RegexParse { message });
        }
        i = i + 1;
    }
    proof {
        lemma_first_unknown_skip(flags@, flags@.len() as int);
    }
    Ok(o)
}

/// Index of the first NUL byte of `b` at or after `i`, or the length.
pub open spec fn first_nul(b: Seq<u8>, i: int) -> int
    decreases b.len() - i,
{
    if i < 0 || i >= b.len() {
        b.len() as int
    } else if b[i] == 0 {
        i
    } else {
        first_nul(b, i + 1)
    }
}

/// The version text PCRE2 reports: the NUL-terminated string in `buf`
/// (lossily decoded) when the config call returned `rc >= 0` and it is not
/// empty, `"PCRE2"` otherwise.
pub open spec fn version_text_spec(rc: i32, buf: Seq<u8>) -> Seq<char> {
    let v = utf8_lossy(buf.take(first_nul(buf, 0)));
    if rc >= 0 && v.len() > 0 {
        v
    } else {
        "PCRE2"@
    }
}

/// The library version string, from what `pcre2_config(PCRE2_CONFIG_VERSION)`
/// returned (`rc`) and wrote into `buf`.
pub fn version_text(rc: i32, buf: &[u8]) -> (r: String)
    ensures
        r@ == version_text_spec(rc, buf@),
{
    let mut end: usize = 0;
    while end < buf.len() && buf[end] != 0
        invariant
            end <= buf@.len(),
            first_nul(buf@, 0) == first_nul(buf@, end as int),
        decreases buf@.len() - end,
    {
        end = end + 1;
    }
    let v = string_from_utf8_lossy(slice_to(buf, end));
    let vlen = v.as_str().as_bytes().len();
    if rc >= 0 && vlen > 0 {
        proof {
            assert(v@.len() > 0) by {
                if v@.len() == 0 {
                    assert(encode_utf8(v@) =~= Seq::<u8>::empty());
                }
            }
        }
        v
    } else {
        proof {
            if rc >= 0 {
                assert(encode_utf8(v@).len() == 0);
                assert(v@.len() == 0) by {
                    if v@.len() > 0 {
                        encode_utf8_first_scalar(v@);
                    }
                }
            }
        }
        "PCRE2".to_owned()
    }
}

fn slice_to(buf: &[u8], end: usize) -> (r: &[u8])
    requires
        end <= buf@.len(),
    ensures
        r@ == buf@.take(end as int),
{
    let (head, _) = buf.split_at(end);
    head
}

/// The text of a PCRE2 error message from `pcre2_get_error_message`, which
/// returned `n` (negative on failure) after writing into `buf`.
pub open spec fn error_message_spec(n: i32, buf: Seq<u8>) -> Seq<char> {
    let k = if n < 0 {
        0
    } else if n > buf.len() {
        buf.len() as int
    } else {
        n as int
    };
    utf8_lossy(buf.take(k))
}

/// The message text PCRE2 wrote into `buf`, `n` being what it returned.
pub fn error_message_text(n: i32, buf: &[u8]) -> (r: String)
    ensures
        r@ == error_message_spec(n, buf@),
{
    let k: usize = if n < 0 {
        0
    } else if n as usize > buf.len() {
        buf.len()
    } else {
        n as usize
    };
    string_from_utf8_lossy(slice_to(buf, k))
}

/// The char of a decimal digit.
pub open spec fn digit_char(d: nat) -> char {
    if d == 0 {
        '0'
    } else if d == 1 {
        '1'
    } else if d == 2 {
        '2'
    } else if d == 3 {
        '3'
    } else if d == 4 {
        '4'
    } else if d == 5 {
        '5'
    } else if d == 6 {
        '6'
    } else if d == 7 {
        '7'
    } else if d == 8 {
        '8'
    } else {
        '9'
    }
}

/// Decimal notation of `n`, without leading zeros.
pub open spec fn decimal_chars(n: nat) -> Seq<char>
    decreases n,
{
    if n < 10 {
        seq![digit_char(n)]
    } else {
        decimal_chars(n / 10).push(digit_char(n % 10))
    }
}

fn digit(d: usize) -> (c: char)
    requires
        d < 10,
    ensures
        c == digit_char(d as nat),
{
    if d == 0 {
        '0'
    } else if d == 1 {
        '1'
    } else if d == 2 {
        '2'
    } else if d == 3 {
        '3'
    } else if d == 4 {
        '4'
    } else if d == 5 {
        '5'
    } else if d == 6 {
        '6'
    } else if d == 7 {
        '7'
    } else if d == 8 {
        '8'
    } else {
        '9'
    }
}

/// Append the decimal notation of `n`.
fn push_decimal(out: &mut String, n: usize)
    ensures
        final(out)@ == old(out)@ + decimal_chars(n as nat),
    decreases n,
{
    if n >= 10 {
        push_decimal(out, n / 10);
    }
    out.push(digit(n % 10));
    proof {
        if n >= 10 {
            assert(old(out)@ + decimal_chars((n / 10) as nat) + seq![digit_char((n % 10) as nat)]
                =~= old(out)@ + decimal_chars(n as nat));
        } else {
            assert(old(out)@ + seq![digit_char(n as nat)] =~= old(out)@ + decimal_chars(
                n as nat,
            ));
        }
    }
}

/// The compile error message for what PCRE2 reported: its message and the
/// pattern offset of the error (PHP's wording).
pub open spec fn compile_failed_spec(message: Seq<char>, offset: nat) -> Seq<char> {
    "Compilation failed: "@ + message + " at offset "@ + decimal_chars(offset)
}

/// `Compilation failed: <message> at offset <offset>`.
pub fn compile_failed_message(message: &str, offset: usize) -> (r: String)
    ensures
        r@ == compile_failed_spec(message@, offset as nat),
{
    let mut out = String::new();
    out.push_str("Compilation failed: ");
    out.push_str(message);
    out.push_str(" at offset ");
    push_decimal(&mut out, offset);
    out
}

} // verus!
