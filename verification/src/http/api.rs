//! `POST /server/api.php`: reading the form-urlencoded body
//! (`action=regex/solve&data=<encodeURIComponent(JSON)>`) and routing it.
//!
//! Every answer is HTTP 200 with a JSON envelope: success
//! `{success: true, data, metadata}` or failure
//! `{success: false, data: {code, data: null, message}, metadata}`.

use vstd::prelude::*;
use vstd::string::StringSliceAdditionalSpecFns;
use vstd::utf8::*;

use crate::text::{str_eq, string_from_utf8_lossy, utf8_lossy};

verus! {

/// Envelope failure code: internal error.
pub const CODE_UNKNOWN: i64 = 1000;

/// Envelope failure code: no action in the request.
pub const CODE_NO_ACTION: i64 = 1001;

/// Envelope failure code: missing or invalid `data` JSON.
pub const CODE_INVALID_JSON: i64 = 1204;

pub open spec fn is_hex_digit(b: u8) -> bool {
    ('0' as u8 <= b <= '9' as u8) || ('a' as u8 <= b <= 'f' as u8) || ('A' as u8 <= b <= 'F' as u8)
}

pub open spec fn hex_value(b: u8) -> u8 {
    if '0' as u8 <= b <= '9' as u8 {
        (b - '0' as u8) as u8
    } else if 'a' as u8 <= b <= 'f' as u8 {
        (b - 'a' as u8 + 10) as u8
    } else {
        (b - 'A' as u8 + 10) as u8
    }
}

/// Percent-decoding of `s[i..]`: `+` is a space, `%` with two hex digits
/// is the byte they spell, anything else (a lone `%` too) is kept.
pub open spec fn percent_decoded_from(s: Seq<u8>, i: int) -> Seq<u8>
    decreases s.len() - i,
{
    if i < 0 || i >= s.len() {
        Seq::empty()
    } else if s[i] == '+' as u8 {
        seq![' ' as u8] + percent_decoded_from(s, i + 1)
    } else if s[i] == '%' as u8 && i + 2 < s.len() && is_hex_digit(s[i + 1]) && is_hex_digit(
        s[i + 2],
    ) {
        seq![(hex_value(s[i + 1]) * 16 + hex_value(s[i + 2])) as u8] + percent_decoded_from(
            s,
            i + 3,
        )
    } else {
        seq![s[i]] + percent_decoded_from(s, i + 1)
    }
}

/// Percent-decoded bytes of `s`.
pub open spec fn percent_decoded(s: Seq<u8>) -> Seq<u8> {
    percent_decoded_from(s, 0)
}

/// The text of a percent-encoded component: the decoded bytes read as
/// UTF-8; when they are not valid UTF-8, invalid sequences are replaced.
pub open spec fn component_text(s: Seq<u8>) -> Seq<char> {
    let d = percent_decoded(s);
    if valid_utf8(d) {
        decode_utf8(d)
    } else {
        utf8_lossy(d)
    }
}

/// The first position at or after `i`, and before `end`, holding byte `c`;
/// `end` when there is none.
pub open spec fn find_byte(s: Seq<u8>, c: u8, i: int, end: int) -> int
    decreases end - i,
{
    if i >= end {
        end
    } else if s[i] == c {
        i
    } else {
        find_byte(s, c, i + 1, end)
    }
}

/// The value of the first `key=value` pair in `body[i..]` whose decoded
/// key is `key`. Pairs are separated by `&`; a pair without `=` is skipped.
pub open spec fn form_lookup(body: Seq<u8>, key: Seq<char>, i: int) -> Option<Seq<char>>
    decreases body.len() - i,
{
    if i < 0 || i > body.len() {
        None
    } else {
        let e = find_byte(body, '&' as u8, i, body.len() as int);
        proof {
            lemma_find_byte(body, '&' as u8, i, body.len() as int);
        }
        let q = find_byte(body, '=' as u8, i, e);
        if q < e && component_text(body.subrange(i, q)) == key {
            Some(component_text(body.subrange(q + 1, e)))
        } else if e >= body.len() {
            None
        } else {
            form_lookup(body, key, e + 1)
        }
    }
}

/// `find_byte` lands in range, on the byte, past no other copy of it.
pub proof fn lemma_find_byte(s: Seq<u8>, c: u8, i: int, end: int)
    requires
        0 <= i <= end <= s.len(),
    ensures
        i <= find_byte(s, c, i, end) <= end,
        find_byte(s, c, i, end) < end ==> s[find_byte(s, c, i, end)] == c,
        forall|j: int| i <= j < find_byte(s, c, i, end) ==> s[j] != c,
    decreases end - i,
{
    if i < end && s[i] != c {
        lemma_find_byte(s, c, i + 1, end);
    }
}

/// Position of the first byte `c` in `s[i..end]`, or `end`.
fn find(s: &[u8], c: u8, i: usize, end: usize) -> (r: usize)
    requires
        i <= end <= s@.len(),
    ensures
        r == find_byte(s@, c, i as int, end as int),
        i <= r <= end,
{
    proof {
        lemma_find_byte(s@, c, i as int, end as int);
    }
    let mut j = i;
    while j < end && s[j] != c
        invariant
            i <= j <= end <= s@.len(),
            find_byte(s@, c, i as int, end as int) == find_byte(s@, c, j as int, end as int),
        decreases end - j,
    {
        j = j + 1;
    }
    j
}

fn hex(b: u8) -> (r: Option<u8>)
    ensures
        r == (if is_hex_digit(b) {
            Some(hex_value(b))
        } else {
            None::<u8>
        }),
{
    if 0x30u8 <= b && b <= 0x39u8 {
        Some(b - 0x30u8)
    } else if 0x61u8 <= b && b <= 0x66u8 {
        Some(b - 0x61u8 + 10)
    } else if 0x41u8 <= b && b <= 0x46u8 {
        Some(b - 0x41u8 + 10)
    } else {
        None
    }
}

/// Percent-decoded bytes of `s[a..b]`.
fn decode_range(s: &[u8], a: usize, b: usize) -> (r: Vec<u8>)
    requires
        a <= b <= s@.len(),
    ensures
        r@ == percent_decoded(s@.subrange(a as int, b as int)),
{
    let ghost sub = s@.subrange(a as int, b as int);
    let mut out: Vec<u8> = Vec::new();
    let mut i = a;
    proof {
        assert(out@ + percent_decoded_from(sub, 0) =~= percent_decoded_from(sub, 0));
    }
    while i < b
        invariant
            a <= i <= b <= s@.len(),
            sub == s@.subrange(a as int, b as int),
            out@ + percent_decoded_from(sub, i - a) == percent_decoded_from(sub, 0),
        decreases b - i,
    {
        let ghost k = i - a;
        let c = s[i];
        if c == 0x2bu8 {
            out.push(0x20u8);
            i = i + 1;
            proof {
                assert(out@ + percent_decoded_from(sub, i - a) =~= percent_decoded_from(sub, 0));
            }
        } else if c == 0x25u8 && b - i > 2 {
            let h = hex(s[i + 1]);
            let l = hex(s[i + 2]);
            if h.is_some() && l.is_some() {
                let hv = h.unwrap();
                let lv = l.unwrap();
                out.push(hv * 16 + lv);
                i = i + 3;
            } else {
                out.push(0x25u8);
                i = i + 1;
            }
            proof {
                assert(out@ + percent_decoded_from(sub, i - a) =~= percent_decoded_from(sub, 0));
            }
        } else {
            out.push(c);
            i = i + 1;
            proof {
                assert(out@ + percent_decoded_from(sub, i - a) =~= percent_decoded_from(sub, 0));
            }
        }
    }
    proof {
        assert(out@ =~= percent_decoded_from(sub, 0));
    }
    out
}

/// Percent-decode one form-urlencoded component (`+` is a space).
pub fn percent_decode(s: &str) -> (r: String)
    ensures
        r@ == component_text(s.spec_bytes()),
{
    let bytes = s.as_bytes();
    let decoded = decode_range(bytes, 0, bytes.len());
    proof {
        assert(bytes@.subrange(0, bytes@.len() as int) =~= bytes@);
    }
    string_from_utf8_lossy(decoded.as_slice())
}

/// The decoded value of the first pair of the form-urlencoded `body` whose
/// decoded key is `key`. Pairs without `=` are skipped, not fatal.
pub fn form_value(body: &str, key: &str) -> (r: Option<String>)
    ensures
        match r {
            Some(v) => form_lookup(body.spec_bytes(), key@, 0) == Some(v@),
            None => form_lookup(body.spec_bytes(), key@, 0) is None,
        },
{
    let b = body.as_bytes();
    let n = b.len();
    let mut i: usize = 0;
    loop
        invariant
            b@ == body.spec_bytes(),
            n == b@.len(),
            i <= n,
            form_lookup(b@, key@, 0) == form_lookup(b@, key@, i as int),
        decreases n - i,
    {
        let e = find(b, 0x26u8, i, n);
        let q = find(b, 0x3du8, i, e);
        proof {
            lemma_find_byte(b@, '&' as u8, i as int, n as int);
            lemma_find_byte(b@, '=' as u8, i as int, e as int);
        }
        if q < e {
            let k = string_from_utf8_lossy(decode_range(b, i, q).as_slice());
            if str_eq(k.as_str(), key) {
                let v = string_from_utf8_lossy(decode_range(b, q + 1, e).as_slice());
                return Some(v);
            }
        }
        if e >= n {
            return None;
        }
        i = e + 1;
    }
}

/// What a request asks for.
pub enum ApiRoute {
    /// An envelope failure: `{code, data: null, message}`.
    Fail { code: i64, message: String },
    /// `regex/solve` with its raw `data` JSON text.
    Solve { data: String },
    /// Any other action, answered with stub data.
    Stub { action: String },
}

pub open spec fn no_action_message() -> Seq<char> {
    "No action was provided"@
}

pub open spec fn no_data_message() -> Seq<char> {
    "No data was provided"@
}

pub open spec fn invalid_json_message() -> Seq<char> {
    "JSON was not valid"@
}

/// Route a form-urlencoded request body: an empty or missing `action` is
/// failure 1001; `regex/solve` without `data` is failure 1204; any other
/// action goes to the stubs.
pub fn route_request(body: &str) -> (r: ApiRoute)
    ensures
        ({
            let action = form_lookup(body.spec_bytes(), "action"@, 0);
            let data = form_lookup(body.spec_bytes(), "data"@, 0);
            if action is None || action->0.len() == 0 {
                r matches ApiRoute::Fail { code, message } && code == CODE_NO_ACTION && message@
                    == no_action_message()
            } else if action->0 == "regex/solve"@ {
                match data {
                    None => r matches ApiRoute::Fail { code, message } && code == CODE_INVALID_JSON
                        && message@ == no_data_message(),
                    Some(d) => r matches ApiRoute::Solve { data } && data@ == d,
                }
            } else {
                r matches ApiRoute::Stub { action: a } && a@ == action->0
            }
        }),
{
    let action = match form_value(body, "action") {
        Some(a) => a,
        None => String::new(),
    };
    if action.as_str().as_bytes().len() == 0 {
        let mut message = String::new();
        message.push_str("No action was provided");
        return ApiRoute::Fail { code: CODE_NO_ACTION, message };
    }
    if str_eq(action.as_str(), "regex/solve") {
        match form_value(body, "data") {
            Some(data) => ApiRoute::Solve { data },
            None => {
                let mut message = String::new();
                message.push_str("No data was provided");
                ApiRoute::Fail { code: CODE_INVALID_JSON, message }
            },
        }
    } else {
        ApiRoute::Stub { action }
    }
}

/// The envelope failure for a `data` text that is not a valid solve
/// request.
pub fn invalid_json() -> (r: ApiRoute)
    ensures
        r matches ApiRoute::Fail { code, message } && code == CODE_INVALID_JSON && message@
            == invalid_json_message(),
{
    let mut message = String::new();
    message.push_str("JSON was not valid");
    ApiRoute::Fail { code: CODE_INVALID_JSON, message }
}

proof fn lemma_plain_from(s: Seq<u8>, i: int)
    requires
        0 <= i <= s.len(),
        forall|j: int| 0 <= j < s.len() ==> #[trigger] s[j] != '%' as u8 && s[j] != '+' as u8,
    ensures
        percent_decoded_from(s, i) == s.skip(i),
    decreases s.len() - i,
{
    if i < s.len() {
        lemma_plain_from(s, i + 1);
        assert(s.skip(i) =~= seq![s[i]] + s.skip(i + 1));
    } else {
        assert(s.skip(i) =~= Seq::<u8>::empty());
    }
}

/// A component without `%` or `+` decodes to itself: its bytes unchanged,
/// its text the text it spells when that is UTF-8.
pub proof fn law_plain_component_is_kept(s: Seq<u8>)
    requires
        forall|j: int| 0 <= j < s.len() ==> #[trigger] s[j] != '%' as u8 && s[j] != '+' as u8,
    ensures
        percent_decoded(s) == s,
        valid_utf8(s) ==> component_text(s) == decode_utf8(s),
{
    lemma_plain_from(s, 0);
    assert(s.skip(0) =~= s);
}

/// `e` percent-encodes the bytes `b`: each byte is either kept as it is
/// (any byte but `%` and `+`) or written as `%` and two hex digits, upper or
/// lower case, as `encodeURIComponent` and form encoders do.
pub open spec fn is_encoding_of(e: Seq<u8>, b: Seq<u8>) -> bool
    decreases e.len(),
{
    if e.len() == 0 {
        b.len() == 0
    } else if e[0] != '%' as u8 && e[0] != '+' as u8 {
        b.len() > 0 && b[0] == e[0] && is_encoding_of(e.drop_first(), b.drop_first())
    } else {
        &&& e.len() >= 3
        &&& e[0] == '%' as u8
        &&& is_hex_digit(e[1])
        &&& is_hex_digit(e[2])
        &&& b.len() > 0
        &&& b[0] == hex_value(e[1]) * 16 + hex_value(e[2])
        &&& is_encoding_of(e.subrange(3, e.len() as int), b.drop_first())
    }
}

proof fn lemma_decoded_from_skip(s: Seq<u8>, i: int)
    requires
        0 <= i <= s.len(),
    ensures
        percent_decoded_from(s, i) == percent_decoded(s.skip(i)),
    decreases s.len() - i,
{
    let r = s.skip(i);
    if i < s.len() {
        if s[i] == '+' as u8 || !(s[i] == '%' as u8 && i + 2 < s.len() && is_hex_digit(s[i + 1])
            && is_hex_digit(s[i + 2])) {
            lemma_decoded_from_skip(s, i + 1);
            lemma_decoded_from_skip(r, 1);
            assert(r.skip(1) =~= s.skip(i + 1));
        } else {
            lemma_decoded_from_skip(s, i + 3);
            lemma_decoded_from_skip(r, 3);
            assert(r.skip(3) =~= s.skip(i + 3));
        }
    } else {
        assert(r =~= Seq::<u8>::empty());
    }
}

proof fn lemma_encoding_decodes(e: Seq<u8>, b: Seq<u8>)
    requires
        is_encoding_of(e, b),
    ensures
        percent_decoded(e) == b,
    decreases e.len(),
{
    if e.len() == 0 {
        assert(b =~= Seq::<u8>::empty());
    } else if e[0] != '%' as u8 && e[0] != '+' as u8 {
        lemma_encoding_decodes(e.drop_first(), b.drop_first());
        lemma_decoded_from_skip(e, 1);
        assert(e.skip(1) =~= e.drop_first());
        assert(b =~= seq![b[0]] + b.drop_first());
    } else {
        let rest = e.subrange(3, e.len() as int);
        lemma_encoding_decodes(rest, b.drop_first());
        lemma_decoded_from_skip(e, 3);
        assert(e.skip(3) =~= rest);
        assert(b =~= seq![b[0]] + b.drop_first());
    }
}

/// Percent-decoding undoes any percent-encoding of a text: bytes kept or
/// escaped, hex digits in either case, the component decodes to the text.
pub proof fn law_percent_encoding_round_trip(e: Seq<u8>, text: Seq<char>)
    requires
        is_encoding_of(e, encode_utf8(text)),
    ensures
        percent_decoded(e) == encode_utf8(text),
        component_text(e) == text,
{
    lemma_encoding_decodes(e, encode_utf8(text));
    encode_utf8_valid_utf8(text);
    encode_utf8_decode_utf8(text);
}

/// The `&`-separated pieces of `s[i..]`, in order (at least one, possibly
/// empty), as `str::split('&')` gives them.
pub open spec fn split_pieces(s: Seq<u8>, i: int) -> Seq<Seq<u8>>
    decreases s.len() - i,
{
    if i < 0 || i > s.len() {
        Seq::empty()
    } else {
        let e = find_byte(s, '&' as u8, i, s.len() as int);
        proof {
            lemma_find_byte(s, '&' as u8, i, s.len() as int);
        }
        if e >= s.len() {
            seq![s.subrange(i, s.len() as int)]
        } else {
            seq![s.subrange(i, e)] + split_pieces(s, e + 1)
        }
    }
}

/// The value of one piece split at its first `=` (`split_once('=')`), when
/// its decoded key is `key`; nothing for a piece without `=` or with another
/// key. The value keeps any later `=`.
pub open spec fn piece_value(p: Seq<u8>, key: Seq<char>) -> Option<Seq<char>> {
    let q = find_byte(p, '=' as u8, 0, p.len() as int);
    if q < p.len() && component_text(p.subrange(0, q)) == key {
        Some(component_text(p.subrange(q + 1, p.len() as int)))
    } else {
        None
    }
}

/// The value of the first piece with the key `key`.
pub open spec fn first_value(ps: Seq<Seq<u8>>, key: Seq<char>) -> Option<Seq<char>>
    decreases ps.len(),
{
    if ps.len() == 0 {
        None
    } else {
        match piece_value(ps[0], key) {
            Some(v) => Some(v),
            None => first_value(ps.drop_first(), key),
        }
    }
}

proof fn lemma_find_byte_shift(s: Seq<u8>, c: u8, i: int, j: int, end: int)
    requires
        0 <= i <= j <= end <= s.len(),
    ensures
        find_byte(s, c, j, end) == i + find_byte(s.subrange(i, end), c, j - i, end - i),
    decreases end - j,
{
    if j < end && s[j] != c {
        lemma_find_byte_shift(s, c, i, j + 1, end);
    }
}

proof fn lemma_form_lookup_split(body: Seq<u8>, key: Seq<char>, i: int)
    requires
        0 <= i <= body.len(),
    ensures
        form_lookup(body, key, i) == first_value(split_pieces(body, i), key),
    decreases body.len() - i,
{
    let n = body.len() as int;
    let e = find_byte(body, '&' as u8, i, n);
    lemma_find_byte(body, '&' as u8, i, n);
    let q = find_byte(body, '=' as u8, i, e);
    lemma_find_byte(body, '=' as u8, i, e);
    let p = body.subrange(i, e);
    lemma_find_byte_shift(body, '=' as u8, i, i, e);
    let qp = find_byte(p, '=' as u8, 0, p.len() as int);
    assert(q == i + qp);
    if qp < p.len() {
        assert(p.subrange(0, qp) =~= body.subrange(i, q));
        assert(p.subrange(qp + 1, p.len() as int) =~= body.subrange(q + 1, e));
    }
    let ps = split_pieces(body, i);
    if e >= n {
        assert(ps == seq![body.subrange(i, n)]);
        assert(ps.drop_first() =~= Seq::<Seq<u8>>::empty());
    } else {
        lemma_form_lookup_split(body, key, e + 1);
        assert(ps.drop_first() =~= split_pieces(body, e + 1));
    }
}

/// `form_lookup` is the split/find form of reading a form body: split it at
/// every `&`, split each piece at its first `=`, and take the decoded value
/// of the first piece whose decoded key is `key` (nothing when none is).
pub proof fn law_form_lookup_is_first_matching_pair(body: Seq<u8>, key: Seq<char>)
    ensures
        form_lookup(body, key, 0) == first_value(split_pieces(body, 0), key),
{
    lemma_form_lookup_split(body, key, 0);
}

/// The upper-case hex digit of a value below 16: `0`-`9`, then `A`-`F`.
pub open spec fn upper_hex(d: u8) -> u8 {
    if d < 10 {
        (48 + d) as u8
    } else {
        (55 + d) as u8
    }
}

/// The lower-case hex digit of a value below 16: `0`-`9`, then `a`-`f`.
pub open spec fn lower_hex(d: u8) -> u8 {
    if d < 10 {
        (48 + d) as u8
    } else {
        (87 + d) as u8
    }
}

/// Every byte written as `%` and its two upper-case hex digits.
pub open spec fn fully_encoded(b: Seq<u8>) -> Seq<u8> {
    Seq::new(
        3 * b.len(),
        |j: int|
            if j % 3 == 0 {
                37u8
            } else if j % 3 == 1 {
                upper_hex(b[j / 3] / 16)
            } else {
                upper_hex(b[j / 3] % 16)
            },
    )
}

proof fn lemma_std_hex(d: u8)
    requires
        d < 16,
    ensures
        is_hex_digit(upper_hex(d)),
        hex_value(upper_hex(d)) == d,
        is_hex_digit(lower_hex(d)),
        hex_value(lower_hex(d)) == d,
{
}

/// One escape: `%` followed by the two hex digits of a byte, upper or lower
/// case, decodes to that byte, for every byte.
pub proof fn law_percent_escape(v: u8)
    ensures
        percent_decoded(seq![37u8, upper_hex(v / 16), upper_hex(v % 16)]) == seq![v],
        percent_decoded(seq![37u8, lower_hex(v / 16), lower_hex(v % 16)]) == seq![v],
{
    lemma_std_hex(v / 16);
    lemma_std_hex(v % 16);
    let u = seq![37u8, upper_hex(v / 16), upper_hex(v % 16)];
    let l = seq![37u8, lower_hex(v / 16), lower_hex(v % 16)];
    assert(percent_decoded_from(u, 3) == Seq::<u8>::empty());
    assert(percent_decoded_from(l, 3) == Seq::<u8>::empty());
    assert(percent_decoded(u) =~= seq![v]);
    assert(percent_decoded(l) =~= seq![v]);
}

proof fn lemma_fully_encoded_is_encoding(b: Seq<u8>)
    ensures
        is_encoding_of(fully_encoded(b), b),
    decreases b.len(),
{
    let e = fully_encoded(b);
    if b.len() > 0 {
        lemma_std_hex(b[0] / 16);
        lemma_std_hex(b[0] % 16);
        assert(e[0] == 37u8);
        assert(e[1] == upper_hex(b[0] / 16));
        assert(e[2] == upper_hex(b[0] % 16));
        let rest = e.subrange(3, e.len() as int);
        let f = fully_encoded(b.drop_first());
        assert forall|j: int| 0 <= j < f.len() implies rest[j] == f[j] by {
            assert((j + 3) % 3 == j % 3 && (j + 3) / 3 == j / 3 + 1);
        }
        assert(rest =~= f);
        lemma_fully_encoded_is_encoding(b.drop_first());
    } else {
        assert(e.len() == 0);
    }
}

/// Any bytes written fully as `%XX` with the standard upper-case digits
/// decode back to themselves.
pub proof fn law_fully_encoded_round_trip(b: Seq<u8>)
    ensures
        percent_decoded(fully_encoded(b)) == b,
{
    lemma_fully_encoded_is_encoding(b);
    lemma_encoding_decodes(fully_encoded(b), b);
}

} // verus!
