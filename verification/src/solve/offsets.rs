//! Byte offset (PCRE2) <-> UTF-16 code unit offset (frontend/JS) conversion.
//!
//! The browser reports and slices match offsets in UTF-16 code units, so every
//! offset sent to the frontend is a UTF-16 offset, computed from the byte
//! offsets PCRE2 works with.

use vstd::prelude::*;
use vstd::string::StringSliceAdditionalSpecFns;
use vstd::utf8::*;

verus! {

broadcast use vstd::utf8::group_utf8_lib;

/// UTF-16 code units taken by one char: 2 for astral chars (a surrogate
/// pair), 1 otherwise.
pub open spec fn utf16_width(c: char) -> nat {
    if (c as u32) >= 0x10000 {
        2
    } else {
        1
    }
}

/// Length in UTF-16 code units of a char sequence (JS `s.length`).
pub open spec fn utf16_units(cs: Seq<char>) -> nat
    decreases cs.len(),
{
    if cs.len() == 0 {
        0
    } else {
        utf16_units(cs.drop_last()) + utf16_width(cs.last())
    }
}

/// UTF-16 offset of byte position `byte_idx` in the UTF-8 text `bytes`:
/// the UTF-16 length of the chars encoded before it.
pub open spec fn utf16_offset(bytes: Seq<u8>, byte_idx: int) -> nat {
    utf16_units(decode_utf8(bytes.take(byte_idx)))
}

/// UTF-16 units contributed by one byte of a UTF-8 text: a char counts at
/// its leading byte, twice when it is a four-byte (astral) char.
pub open spec fn byte_units(b: u8) -> nat {
    (if is_continuation_byte(b) {
        0nat
    } else {
        1nat
    }) + (if b >= 0xf0 {
        1nat
    } else {
        0nat
    })
}

/// Sum of `byte_units` over a byte sequence.
pub open spec fn bytes_units(bs: Seq<u8>) -> nat
    decreases bs.len(),
{
    if bs.len() == 0 {
        0
    } else {
        bytes_units(bs.drop_last()) + byte_units(bs.last())
    }
}

proof fn lemma_utf16_units_concat(a: Seq<char>, b: Seq<char>)
    ensures
        utf16_units(a + b) == utf16_units(a) + utf16_units(b),
    decreases b.len(),
{
    if b.len() == 0 {
        assert(a + b =~= a);
    } else {
        lemma_utf16_units_concat(a, b.drop_last());
        assert((a + b).drop_last() =~= a + b.drop_last());
    }
}

proof fn lemma_bytes_units_concat(a: Seq<u8>, b: Seq<u8>)
    ensures
        bytes_units(a + b) == bytes_units(a) + bytes_units(b),
    decreases b.len(),
{
    if b.len() == 0 {
        assert(a + b =~= a);
    } else {
        lemma_bytes_units_concat(a, b.drop_last());
        assert((a + b).drop_last() =~= a + b.drop_last());
    }
}

proof fn lemma_bytes_units_take_step(bs: Seq<u8>, i: int)
    requires
        0 <= i < bs.len(),
    ensures
        bytes_units(bs.take(i + 1)) == bytes_units(bs.take(i)) + byte_units(bs[i]),
{
    assert(bs.take(i + 1).drop_last() =~= bs.take(i));
}

proof fn lemma_bytes_units_take_mono(bs: Seq<u8>, i: int, j: int)
    requires
        0 <= i <= j <= bs.len(),
    ensures
        bytes_units(bs.take(i)) <= bytes_units(bs.take(j)),
    decreases j - i,
{
    if i < j {
        lemma_bytes_units_take_step(bs, j - 1);
        lemma_bytes_units_take_mono(bs, i, j - 1);
    }
}

/// The units of one encoded char, counted per byte, are its UTF-16 width and
/// never exceed its byte length.
proof fn lemma_first_scalar_units(bs: Seq<u8>)
    requires
        valid_utf8(bs),
        bs.len() > 0,
    ensures
        bytes_units(take_first_scalar(bs)) == utf16_width(decode_first_scalar(bs) as char),
        bytes_units(take_first_scalar(bs)) <= take_first_scalar(bs).len(),
{
    let c = decode_first_scalar(bs) as char;
    decode_utf8_first_scalar(bs);
    char_is_scalar(c);
    let t = take_first_scalar(bs);
    reveal_with_fuel(bytes_units, 5);
    if is_leading_byte_width_1(bs[0]) {
        assert(t =~= seq![bs[0]]);
        assert(t.drop_last() =~= Seq::<u8>::empty());
    } else if is_leading_byte_width_2(bs[0]) {
        assert(t =~= seq![bs[0], bs[1]]);
        assert(t.drop_last() =~= seq![bs[0]]);
        assert(t.drop_last().drop_last() =~= Seq::<u8>::empty());
    } else if is_leading_byte_width_3(bs[0]) {
        assert(t =~= seq![bs[0], bs[1], bs[2]]);
        assert(t.drop_last() =~= seq![bs[0], bs[1]]);
        assert(t.drop_last().drop_last() =~= seq![bs[0]]);
        assert(t.drop_last().drop_last().drop_last() =~= Seq::<u8>::empty());
    } else {
        assert(t =~= seq![bs[0], bs[1], bs[2], bs[3]]);
        assert(t.drop_last() =~= seq![bs[0], bs[1], bs[2]]);
        assert(t.drop_last().drop_last() =~= seq![bs[0], bs[1]]);
        assert(t.drop_last().drop_last().drop_last() =~= seq![bs[0]]);
        assert(t.drop_last().drop_last().drop_last().drop_last() =~= Seq::<u8>::empty());
    }
}

/// On valid UTF-8, counting units per byte gives the UTF-16 length of the
/// decoded text, which is at most the byte length.
proof fn lemma_bytes_units_decode(bs: Seq<u8>)
    requires
        valid_utf8(bs),
    ensures
        bytes_units(bs) == utf16_units(decode_utf8(bs)),
        bytes_units(bs) <= bs.len(),
    decreases bs.len(),
{
    if bs.len() > 0 {
        let t = take_first_scalar(bs);
        let r = pop_first_scalar(bs);
        assert(bs =~= t + r);
        lemma_first_scalar_units(bs);
        lemma_bytes_units_decode(r);
        lemma_bytes_units_concat(t, r);
        let c = decode_first_scalar(bs) as char;
        assert(decode_utf8(bs) =~= seq![c] + decode_utf8(r));
        lemma_utf16_units_concat(seq![c], decode_utf8(r));
        reveal_with_fuel(utf16_units, 2);
        assert(seq![c].drop_last() =~= Seq::<char>::empty());
    }
}

/// At a char boundary the per-byte count of the prefix is its UTF-16 offset.
proof fn lemma_offset_at_boundary(bs: Seq<u8>, i: int)
    requires
        valid_utf8(bs),
        is_char_boundary(bs, i),
    ensures
        0 <= i <= bs.len(),
        bytes_units(bs.take(i)) == utf16_offset(bs, i),
        bytes_units(bs.take(i)) <= i,
{
    lemma_boundary_in_range(bs, i);
    valid_utf8_split(bs, i);
    assert(bs.take(i) =~= bs.subrange(0, i));
    lemma_bytes_units_decode(bs.take(i));
}

/// A char boundary of valid UTF-8 lies within the bytes.
pub proof fn lemma_boundary_in_range(bs: Seq<u8>, i: int)
    requires
        valid_utf8(bs),
        is_char_boundary(bs, i),
    ensures
        0 <= i <= bs.len(),
    decreases bs.len(),
{
    if i != 0 {
        lemma_boundary_in_range(pop_first_scalar(bs), i - length_of_first_scalar(bs));
    }
}

/// UTF-16 units of one byte (see `byte_units`).
fn byte_unit(b: u8) -> (r: usize)
    ensures
        r == byte_units(b),
{
    let lead: usize = if 0x80 <= b && b <= 0xbf {
        0
    } else {
        1
    };
    let astral: usize = if b >= 0xf0 {
        1
    } else {
        0
    };
    lead + astral
}

/// Sum of the byte units of `bytes[..end]`.
fn units_before(bytes: &[u8], end: usize) -> (r: usize)
    requires
        end <= bytes@.len(),
        bytes_units(bytes@.take(end as int)) <= usize::MAX,
    ensures
        r == bytes_units(bytes@.take(end as int)),
{
    let mut u: usize = 0;
    let mut i: usize = 0;
    while i < end
        invariant
            i <= end <= bytes@.len(),
            u == bytes_units(bytes@.take(i as int)),
            bytes_units(bytes@.take(end as int)) <= usize::MAX,
        decreases end - i,
    {
        proof {
            lemma_bytes_units_take_step(bytes@, i as int);
            lemma_bytes_units_take_mono(bytes@, i + 1, end as int);
        }
        u = u + byte_unit(bytes[i]);
        i = i + 1;
    }
    u
}

/// Convert a byte index into `s` (which must fall on a char boundary) to a
/// UTF-16 code unit index. Single-shot version, linear in `byte_idx`; for many
/// lookups on one subject build a [`Utf16Indexer`].
pub fn byte_to_utf16(s: &str, byte_idx: usize) -> (r: usize)
    requires
        is_char_boundary(s.spec_bytes(), byte_idx as int),
    ensures
        r == utf16_offset(s.spec_bytes(), byte_idx as int),
{
    let bytes = s.as_bytes();
    proof {
        lemma_offset_at_boundary(bytes@, byte_idx as int);
    }
    units_before(bytes, byte_idx)
}

/// Length of `s` in UTF-16 code units (same as `s.length` in JS).
pub fn utf16_len(s: &str) -> (r: usize)
    ensures
        r == utf16_units(s@),
{
    let bytes = s.as_bytes();
    proof {
        is_char_boundary_start_end_of_seq(bytes@);
        lemma_offset_at_boundary(bytes@, bytes@.len() as int);
        assert(bytes@.take(bytes@.len() as int) =~= bytes@);
    }
    units_before(bytes, bytes.len())
}


/// One-pass prefix table over a subject: the byte offset of every char
/// boundary with its UTF-16 offset. Building it is linear in the subject;
/// each lookup is a binary search, so converting many match offsets stays
/// linear overall instead of rescanning from byte 0 per match.
pub struct Utf16Indexer {
    /// `bytes[k]` is a char-boundary byte offset, `units[k]` its UTF-16
    /// offset. The first entry is (0, 0), the last (subject length, UTF-16
    /// length).
    bytes: Vec<usize>,
    units: Vec<usize>,
    text: Ghost<Seq<u8>>,
}

impl Utf16Indexer {
    /// The UTF-8 bytes of the subject this table was built from.
    pub closed spec fn text(&self) -> Seq<u8> {
        self.text@
    }

    #[verifier::type_invariant]
    spec fn table_wf(&self) -> bool {
        let t = self.text@;
        let b = self.bytes@;
        let u = self.units@;
        &&& valid_utf8(t)
        &&& b.len() == u.len()
        &&& b.len() >= 1
        &&& b[0] == 0
        &&& b.last() == t.len()
        &&& forall|i: int, j: int| 0 <= i < j < b.len() ==> #[trigger] b[i] < #[trigger] b[j]
        &&& forall|k: int| 0 <= k < b.len() ==> is_char_boundary(t, #[trigger] b[k] as int)
        &&& forall|k: int, p: int|
            0 <= k < b.len() - 1 && b[k] < p < b[k + 1] ==> is_continuation_byte(
                #[trigger] t[p],
            ) && #[trigger] b[k] <= p
        &&& forall|k: int| 0 <= k < b.len() ==> #[trigger] u[k] == bytes_units(t.take(b[k] as int))
    }

    /// Build the table for `s`.
    pub fn new(s: &str) -> (ix: Self)
        ensures
            ix.text() == s.spec_bytes(),
    {
        let bs = s.as_bytes();
        let n = bs.len();
        let ghost t = bs@;
        proof {
            is_char_boundary_start_end_of_seq(t);
            lemma_offset_at_boundary(t, n as int);
            assert(t.take(n as int) =~= t);
            assert(t.take(0) =~= Seq::<u8>::empty());
        }
        let mut bytes: Vec<usize> = Vec::new();
        let mut units: Vec<usize> = Vec::new();
        bytes.push(0);
        units.push(0);
        let mut u: usize = 0;
        let mut j: usize = 0;
        while j < n
            invariant
                t == bs@,
                valid_utf8(t),
                n == t.len(),
                j <= n,
                u == bytes_units(t.take(j as int)),
                bytes_units(t.take(n as int)) <= n,
                bytes@.len() == units@.len(),
                bytes@.len() >= 1,
                bytes@[0] == 0,
                bytes@.last() <= j,
                j > 0 ==> bytes@.last() < j,
                forall|p: int| bytes@.last() < p < j ==> is_continuation_byte(#[trigger] t[p]),
                forall|i: int, k: int|
                    0 <= i < k < bytes@.len() ==> #[trigger] bytes@[i] < #[trigger] bytes@[k],
                forall|k: int|
                    0 <= k < bytes@.len() ==> is_char_boundary(t, #[trigger] bytes@[k] as int),
                forall|k: int, p: int|
                    0 <= k < bytes@.len() - 1 && bytes@[k] < p < bytes@[k + 1]
                        ==> is_continuation_byte(#[trigger] t[p]) && #[trigger] bytes@[k] <= p,
                forall|k: int|
                    0 <= k < bytes@.len() ==> #[trigger] units@[k] == bytes_units(
                        t.take(bytes@[k] as int),
                    ),
            decreases n - j,
        {
            let b = bs[j];
            if j > 0 && !(0x80 <= b && b <= 0xbf) {
                proof {
                    is_char_boundary_iff_not_is_continuation_byte(t, j as int);
                }
                bytes.push(j);
                units.push(u);
            }
            proof {
                lemma_bytes_units_take_step(t, j as int);
                lemma_bytes_units_take_mono(t, j + 1, n as int);
            }
            u = u + byte_unit(b);
            j = j + 1;
        }
        if n > 0 {
            bytes.push(n);
            units.push(u);
        }
        Utf16Indexer { bytes, units, text: Ghost(t) }
    }

    /// UTF-16 offset for a byte index, which must fall on a char boundary of
    /// the subject.
    pub fn utf16_at(&self, byte_idx: usize) -> (r: usize)
        requires
            is_char_boundary(self.text(), byte_idx as int),
        ensures
            r == utf16_offset(self.text(), byte_idx as int),
            valid_utf8(self.text()),
    {
        proof {
            use_type_invariant(self);
            lemma_boundary_in_range(self.text@, byte_idx as int);
        }
        // partition point: first entry not below `byte_idx`
        let mut lo: usize = 0;
        let mut hi: usize = self.bytes.len() - 1;
        while lo < hi
            invariant
                0 <= lo <= hi < self.bytes@.len(),
                self.bytes@[hi as int] >= byte_idx,
                lo > 0 ==> self.bytes@[lo - 1] < byte_idx,
                forall|i: int, j: int|
                    0 <= i < j < self.bytes@.len() ==> #[trigger] self.bytes@[i]
                        < #[trigger] self.bytes@[j],
            decreases hi - lo,
        {
            let mid = lo + (hi - lo) / 2;
            if self.bytes[mid] < byte_idx {
                lo = mid + 1;
            } else {
                hi = mid;
            }
        }
        proof {
            let t = self.text@;
            let b = self.bytes@;
            if b[lo as int] != byte_idx {
                // strictly between two neighbouring boundaries: a continuation
                // byte, which no char boundary is
                assert(lo > 0);
                assert(b[lo - 1] < byte_idx < b[lo as int]);
                assert(is_continuation_byte(t[byte_idx as int]) && b[lo - 1] <= byte_idx);
                is_char_boundary_iff_not_is_continuation_byte(t, byte_idx as int);
                assert(false);
            }
            lemma_offset_at_boundary(t, byte_idx as int);
        }
        self.units[lo]
    }

    /// Total length of the subject in UTF-16 code units.
    pub fn len(&self) -> (r: usize)
        ensures
            r == utf16_units(decode_utf8(self.text())),
    {
        proof {
            use_type_invariant(self);
            let t = self.text@;
            is_char_boundary_start_end_of_seq(t);
            lemma_offset_at_boundary(t, t.len() as int);
            assert(t.take(t.len() as int) =~= t);
        }
        self.units[self.units.len() - 1]
    }

    /// Whether the subject is empty in UTF-16 terms.
    pub fn is_empty(&self) -> (r: bool)
        ensures
            r == (utf16_units(decode_utf8(self.text())) == 0),
    {
        self.len() == 0
    }
}

/// UTF-8 encoding distributes over concatenation.
pub proof fn lemma_encode_utf8_concat(a: Seq<char>, b: Seq<char>)
    ensures
        encode_utf8(a + b) == encode_utf8(a) + encode_utf8(b),
    decreases a.len(),
{
    if a.len() == 0 {
        assert(a + b =~= b);
        assert(encode_utf8(a) =~= Seq::<u8>::empty());
        assert(encode_utf8(a) + encode_utf8(b) =~= encode_utf8(b));
    } else {
        lemma_encode_utf8_concat(a.drop_first(), b);
        assert((a + b).drop_first() =~= a.drop_first() + b);
        assert((a + b)[0] == a[0]);
        assert(encode_utf8(a + b) =~= encode_scalar(a[0] as u32) + encode_utf8(a.drop_first() + b));
    }
}

proof fn lemma_prefix_is_boundary(a: Seq<char>, b: Seq<char>)
    ensures
        is_char_boundary(encode_utf8(a + b), encode_utf8(a).len() as int),
    decreases a.len(),
{
    if a.len() == 0 {
        assert(encode_utf8(a).len() == 0);
    } else {
        let whole = encode_utf8(a + b);
        lemma_encode_utf8_concat(a, b);
        lemma_encode_utf8_concat(a.drop_first(), b);
        assert((a + b).drop_first() =~= a.drop_first() + b);
        assert((a + b)[0] == a[0]);
        encode_utf8_first_scalar(a + b);
        let w = encode_scalar(a[0] as u32).len() as int;
        assert(whole =~= encode_scalar(a[0] as u32) + encode_utf8(a.drop_first() + b));
        assert(pop_first_scalar(whole) =~= encode_utf8(a.drop_first() + b));
        assert(encode_utf8(a) =~= encode_scalar(a[0] as u32) + encode_utf8(a.drop_first()));
        lemma_prefix_is_boundary(a.drop_first(), b);
        assert(encode_utf8(a).len() as int - length_of_first_scalar(whole) == encode_utf8(
            a.drop_first(),
        ).len());
    }
}

/// UTF-16 offset of the boundary after the first `k` chars of `s`.
proof fn lemma_offset_of_char_prefix(s: Seq<char>, k: int)
    requires
        0 <= k <= s.len(),
    ensures
        is_char_boundary(encode_utf8(s), encode_utf8(s.take(k)).len() as int),
        utf16_offset(encode_utf8(s), encode_utf8(s.take(k)).len() as int) == utf16_units(
            s.take(k),
        ),
{
    let a = s.take(k);
    let b = s.skip(k);
    assert(a + b =~= s);
    lemma_prefix_is_boundary(a, b);
    lemma_encode_utf8_concat(a, b);
    assert(encode_utf8(s).take(encode_utf8(a).len() as int) =~= encode_utf8(a));
}

/// The byte-to-UTF-16 offset map of a text: the start maps to 0, the end to
/// the text's UTF-16 length, and each char advances the offset by exactly 1
/// or 2 units, 2 exactly for the chars beyond U+FFFF (a surrogate pair).
/// Char boundaries therefore map to strictly increasing UTF-16
/// offsets, and distinct boundaries never collide.
pub proof fn law_utf16_offsets_step(s: Seq<char>, k: int)
    requires
        0 <= k < s.len(),
    ensures
        utf16_offset(encode_utf8(s), 0) == 0,
        utf16_offset(encode_utf8(s), encode_utf8(s).len() as int) == utf16_units(s),
        is_char_boundary(encode_utf8(s), encode_utf8(s.take(k)).len() as int),
        is_char_boundary(encode_utf8(s), encode_utf8(s.take(k + 1)).len() as int),
        utf16_offset(encode_utf8(s), encode_utf8(s.take(k + 1)).len() as int) == utf16_offset(
            encode_utf8(s),
            encode_utf8(s.take(k)).len() as int,
        ) + utf16_width(s[k]),
        utf16_width(s[k]) == 1 || utf16_width(s[k]) == 2,
        (utf16_width(s[k]) == 2) == (s[k] as u32 >= 0x10000),
{
    lemma_offset_of_char_prefix(s, 0);
    lemma_offset_of_char_prefix(s, s.len() as int);
    lemma_offset_of_char_prefix(s, k);
    lemma_offset_of_char_prefix(s, k + 1);
    assert(s.take(0) =~= Seq::<char>::empty());
    assert(s.take(s.len() as int) =~= s);
    assert(s.take(k + 1).drop_last() =~= s.take(k));
    assert(encode_utf8(Seq::<char>::empty()) =~= Seq::<u8>::empty());
}

/// A table built from a subject answers every boundary lookup exactly as the
/// single-shot conversion does: both give the UTF-16 offset of the boundary.
pub proof fn law_indexer_matches_one_shot(ix: &Utf16Indexer, s: &str, byte_idx: usize)
    requires
        ix.text() == s.spec_bytes(),
        is_char_boundary(s.spec_bytes(), byte_idx as int),
    ensures
        is_char_boundary(ix.text(), byte_idx as int),
        utf16_offset(ix.text(), byte_idx as int) == utf16_offset(s.spec_bytes(), byte_idx as int),
{
}

/// Byte-to-UTF-16 offsets are monotone over char boundaries.
pub proof fn lemma_utf16_offset_mono(bs: Seq<u8>, a: int, b: int)
    requires
        valid_utf8(bs),
        is_char_boundary(bs, a),
        is_char_boundary(bs, b),
        a <= b,
    ensures
        utf16_offset(bs, a) <= utf16_offset(bs, b),
        b <= bs.len(),
{
    lemma_offset_at_boundary(bs, a);
    lemma_offset_at_boundary(bs, b);
    lemma_bytes_units_take_mono(bs, a, b);
}

} // verus!
