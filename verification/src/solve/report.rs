//! The match report sent to the frontend: `{i, l, groups: [{i, l}, ...]}`
//! with UTF-16 code-unit offsets.

use vstd::prelude::*;
use vstd::utf8::*;

use crate::solve::engine::{span_wf, MatchSpan};
use crate::solve::offsets::{
    lemma_utf16_offset_mono,
    utf16_offset,
    Utf16Indexer,
};

verus! {

/// One capture group of a reported match. A group that did not participate
/// is reported as `{i: 0, l: 0}`.
#[derive(Debug, Clone, Copy, PartialEq, Eq)]
pub struct JsonGroup {
    pub i: usize,
    pub l: usize,
}

/// One reported match with its groups.
#[derive(Debug)]
pub struct JsonMatch {
    pub i: usize,
    pub l: usize,
    pub groups: Vec<JsonGroup>,
}

/// The report of the group span `g` over the UTF-8 text `t`.
pub open spec fn json_group_spec(t: Seq<u8>, g: Option<(usize, usize)>) -> JsonGroup {
    match g {
        Some((s, e)) => JsonGroup {
            i: utf16_offset(t, s as int) as usize,
            l: (utf16_offset(t, e as int) - utf16_offset(t, s as int)) as usize,
        },
        None => JsonGroup { i: 0, l: 0 },
    }
}

/// `m` reports the match span `sp` over the UTF-8 text `t`.
pub open spec fn reports_match(t: Seq<u8>, sp: &MatchSpan, m: &JsonMatch) -> bool {
    &&& m.i == utf16_offset(t, sp.start as int)
    &&& m.l == utf16_offset(t, sp.end as int) - utf16_offset(t, sp.start as int)
    &&& m.groups@.len() == sp.groups@.len()
    &&& forall|g: int|
        0 <= g < sp.groups@.len() ==> #[trigger] m.groups@[g] == json_group_spec(t, sp.groups@[g])
}

/// Report a group span with UTF-16 offsets.
pub fn json_group(span: Option<(usize, usize)>, ix: &Utf16Indexer) -> (r: JsonGroup)
    requires
        span matches Some((s, e)) ==> s <= e && is_char_boundary(ix.text(), s as int)
            && is_char_boundary(ix.text(), e as int),
    ensures
        r == json_group_spec(ix.text(), span),
{
    match span {
        Some((bs, be)) => {
            let i = ix.utf16_at(bs);
            let j = ix.utf16_at(be);
            proof {
                lemma_utf16_offset_mono(ix.text(), bs as int, be as int);
            }
            JsonGroup { i, l: j - i }
        },
        None => JsonGroup { i: 0, l: 0 },
    }
}

/// Report a match span with UTF-16 offsets.
pub fn json_match(span: &MatchSpan, ix: &Utf16Indexer) -> (r: JsonMatch)
    requires
        span_wf(ix.text(), span),
    ensures
        reports_match(ix.text(), span, &r),
{
    let i = ix.utf16_at(span.start);
    let j = ix.utf16_at(span.end);
    proof {
        lemma_utf16_offset_mono(ix.text(), span.start as int, span.end as int);
    }
    let mut groups: Vec<JsonGroup> = Vec::new();
    let mut k: usize = 0;
    while k < span.groups.len()
        invariant
            span_wf(ix.text(), span),
            k <= span.groups@.len(),
            groups@.len() == k,
            forall|g: int| 0 <= g < k ==> #[trigger] groups@[g] == json_group_spec(ix.text(), span.groups@[g]),
        decreases span.groups@.len() - k,
    {
        let g = span.groups[k];
        groups.push(json_group(g, ix));
        k = k + 1;
    }
    JsonMatch { i, l: j - i, groups }
}

} // verus!
