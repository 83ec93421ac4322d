//! PCRE substitution-string expansion for the `replace` / `list` tools,
//! following PHP `preg_replace()` replacement semantics:
//! - `\1`..`\99`, `$1`..`$99` (at most two digits read) and `${n}` (at most
//!   nine digits) are capture-group references;
//! - `\\` is a literal `\`, `\$` a literal `$`;
//! - a reference to a group that exists but did not participate expands to
//!   nothing, and so does a reference past the pattern's group count (no
//!   decomposition of `$13` into `$1` + `3`);
//! - `$` or `\` followed by anything else is kept literally.
//!
//! `$&`, `` $` ``, `$'`, `$$` and `\g{..}` are not replacement forms here and
//! stay literal.

use vstd::prelude::*;

verus! {

/// `String::push` appends one char.
pub assume_specification[ String::push ](s: &mut String, ch: char)
    ensures
        final(s)@ == old(s)@.push(ch),
;

/// `String::push_str` appends the chars of a string slice.
pub assume_specification[ String::push_str ](s: &mut String, string: &str)
    ensures
        final(s)@ == old(s)@ + string@,
;

pub open spec fn is_digit(c: char) -> bool {
    '0' <= c <= '9'
}

pub open spec fn digit_value(c: char) -> nat {
    (c as u32 - '0' as u32) as nat
}

/// Length of the run of ASCII digits of `r` starting at `start`, reading at
/// most `max` of them.
pub open spec fn digit_run(r: Seq<char>, start: int, max: nat) -> nat
    decreases max,
{
    if max == 0 || start < 0 || start >= r.len() || !is_digit(r[start]) {
        0
    } else {
        1 + digit_run(r, start + 1, (max - 1) as nat)
    }
}

/// A digit run stays inside the template and consists of digits.
pub proof fn lemma_digit_run_bound(r: Seq<char>, start: int, max: nat)
    ensures
        digit_run(r, start, max) <= max,
        digit_run(r, start, max) > 0 ==> 0 <= start && start + digit_run(r, start, max) <= r.len(),
        forall|j: int|
            start <= j < start + digit_run(r, start, max) ==> is_digit(#[trigger] r[j]),
    decreases max,
{
    if !(max == 0 || start < 0 || start >= r.len() || !is_digit(r[start])) {
        lemma_digit_run_bound(r, start + 1, (max - 1) as nat);
    }
}

/// Decimal value of the digits `r[start..start + len]`.
pub open spec fn decimal_value(r: Seq<char>, start: int, len: nat) -> nat
    decreases len,
{
    if len == 0 {
        0
    } else {
        decimal_value(r, start, (len - 1) as nat) * 10 + digit_value(r[start + len - 1])
    }
}

/// Text that a reference to group `n` expands to: the group's capture when
/// the group exists and participated, nothing otherwise.
pub open spec fn group_text(n: nat, total_groups: nat, groups: spec_fn(nat) -> Option<Seq<char>>) -> Seq<
    char,
> {
    if n > total_groups {
        Seq::empty()
    } else {
        match groups(n) {
            Some(t) => t,
            None => Seq::empty(),
        }
    }
}

/// Expansion of the replacement template `r` from position `i` on.
pub open spec fn expand_from(
    r: Seq<char>,
    i: int,
    total_groups: nat,
    groups: spec_fn(nat) -> Option<Seq<char>>,
) -> Seq<char>
    decreases r.len() - i,
{
    if i < 0 || i >= r.len() {
        Seq::empty()
    } else {
        let c = r[i];
        let has_next = i + 1 < r.len();
        if c != '\\' && c != '$' {
            seq![c] + expand_from(r, i + 1, total_groups, groups)
        } else if c == '\\' && has_next && (r[i + 1] == '\\' || r[i + 1] == '$') {
            // `\\` and `\$`: the escaped char, literally
            seq![r[i + 1]] + expand_from(r, i + 2, total_groups, groups)
        } else if c == '$' && has_next && r[i + 1] == '{' {
            // `${n}`: one to nine digits closed by `}`; anything else keeps the `$`
            let k = digit_run(r, i + 2, 9);
            if k > 0 && i + 2 + k < r.len() && r[i + 2 + k] == '}' {
                group_text(decimal_value(r, i + 2, k), total_groups, groups) + expand_from(
                    r,
                    i + 3 + k,
                    total_groups,
                    groups,
                )
            } else {
                seq!['$'] + expand_from(r, i + 1, total_groups, groups)
            }
        } else if has_next && is_digit(r[i + 1]) {
            // `$n` / `\n`: one or two digits
            let k = digit_run(r, i + 1, 2);
            proof {
                lemma_digit_run_bound(r, i + 1, 2);
            }
            group_text(decimal_value(r, i + 1, k), total_groups, groups) + expand_from(
                r,
                i + 1 + k,
                total_groups,
                groups,
            )
        } else {
            seq![c] + expand_from(r, i + 1, total_groups, groups)
        }
    }
}

/// Expansion of a whole replacement template.
pub open spec fn expand_spec(
    r: Seq<char>,
    total_groups: nat,
    groups: spec_fn(nat) -> Option<Seq<char>>,
) -> Seq<char> {
    expand_from(r, 0, total_groups, groups)
}

/// The chars of a string slice, in order.
pub(crate) fn chars_of(s: &str) -> (v: Vec<char>)
    ensures
        v@ == s@,
{
    let mut v: Vec<char> = Vec::new();
    for c in it: s.chars()
        invariant
            v@ == it.seq().take(it.index()),
    {
        v.push(c);
    }
    v
}

/// Text of an optional capture.
pub open spec fn opt_text(r: Option<&str>) -> Option<Seq<char>> {
    match r {
        Some(t) => Some(t@),
        None => None,
    }
}

/// `groups` agrees with every answer `lookup` can give: whatever text
/// `lookup(n)` returns is `groups(n)`.
pub open spec fn lookup_consistent<'a, F: Fn(usize) -> Option<&'a str>>(
    lookup: F,
    groups: spec_fn(nat) -> Option<Seq<char>>,
) -> bool {
    forall|n: usize, r: Option<&'a str>|
        #[trigger] call_ensures(lookup, (n,), r) ==> opt_text(r) == groups(n as nat)
}

/// `lookup` may be asked about every group number up to `total_groups`.
pub open spec fn lookup_callable<'a, F: Fn(usize) -> Option<&'a str>>(
    lookup: F,
    total_groups: usize,
) -> bool {
    forall|n: usize| n <= total_groups ==> #[trigger] call_requires(lookup, (n,))
}

/// Largest value of a run of at most `len` decimal digits.
pub open spec fn pow10(len: nat) -> nat
    decreases len,
{
    if len == 0 {
        1
    } else {
        10 * pow10((len - 1) as nat)
    }
}

proof fn lemma_decimal_value_bound(r: Seq<char>, start: int, len: nat)
    requires
        forall|j: int| start <= j < start + len ==> is_digit(#[trigger] r[j]),
    ensures
        decimal_value(r, start, len) < pow10(len),
    decreases len,
{
    if len > 0 {
        lemma_decimal_value_bound(r, start, (len - 1) as nat);
        let d = decimal_value(r, start, (len - 1) as nat);
        let p = pow10((len - 1) as nat);
        assert(is_digit(r[start + len - 1]));
        let x = digit_value(r[start + len - 1]);
        assert(x <= 9);
        assert(d * 10 + x < 10 * p) by (nonlinear_arith)
            requires
                d < p,
                x <= 9,
        ;
    }
}

/// Parse up to `max_digits` ASCII digits starting at `start`; returns the
/// number and how many digits were consumed.
fn parse_number(chars: &[char], start: usize, max_digits: usize) -> (res: (usize, usize))
    requires
        start <= chars@.len(),
        max_digits <= 9,
    ensures
        res.1 == digit_run(chars@, start as int, max_digits as nat),
        res.0 == decimal_value(chars@, start as int, res.1 as nat),
{
    let mut n: usize = 0;
    let mut consumed: usize = 0;
    proof {
        pow10_values();
    }
    while consumed < max_digits && consumed < chars.len() - start && '0' <= chars[start
        + consumed] && chars[start + consumed] <= '9'
        invariant
            start <= chars@.len(),
            max_digits <= 9,
            consumed <= max_digits,
            consumed <= chars@.len() - start,
            digit_run(chars@, start as int, max_digits as nat) == consumed + digit_run(
                chars@,
                start + consumed,
                (max_digits - consumed) as nat,
            ),
            forall|j: int| start <= j < start + consumed ==> is_digit(#[trigger] chars@[j]),
            n == decimal_value(chars@, start as int, consumed as nat),
            pow10(8) == 100000000,
        decreases max_digits - consumed,
    {
        proof {
            lemma_decimal_value_bound(chars@, start as int, consumed as nat);
            lemma_pow10_mono(consumed as nat, 8);
        }
        let d = chars[start + consumed];
        n = n * 10 + (d as usize - '0' as usize);
        consumed = consumed + 1;
    }
    (n, consumed)
}

proof fn pow10_values()
    ensures
        pow10(8) == 100000000,
        pow10(9) == 1000000000,
{
    reveal_with_fuel(pow10, 10);
}

proof fn lemma_pow10_mono(a: nat, b: nat)
    requires
        a <= b,
    ensures
        pow10(a) <= pow10(b),
    decreases b - a,
{
    if a < b {
        lemma_pow10_mono(a, (b - 1) as nat);
    }
}

/// `${n}` body starting at `start` (just after `${`): `Some((n, end))` with
/// `end` just past the closing `}`, or `None` when malformed.
fn parse_braced(chars: &[char], start: usize) -> (res: Option<(usize, usize)>)
    requires
        start <= chars@.len(),
    ensures
        ({
            let k = digit_run(chars@, start as int, 9);
            if k > 0 && start + k < chars@.len() && chars@[start + k] == '}' {
                res == Some((decimal_value(chars@, start as int, k) as usize, (start + k + 1) as usize))
            } else {
                res is None
            }
        }),
{
    let (n, k) = parse_number(chars, start, 9);
    proof {
        lemma_digit_run_bound(chars@, start as int, 9);
    }
    if k == 0 || k >= chars.len() - start || chars[start + k] != '}' {
        return None;
    }
    Some((n, start + k + 1))
}

/// Append the expansion of a reference to group `n`.
fn emit_group<'a, F: Fn(usize) -> Option<&'a str>>(
    out: &mut String,
    n: usize,
    total_groups: usize,
    lookup: &F,
)
    requires
        lookup_callable(*lookup, total_groups),
    ensures
        forall|groups: spec_fn(nat) -> Option<Seq<char>>|
            #[trigger] lookup_consistent(*lookup, groups) ==> final(out)@ == old(out)@ + group_text(
                n as nat,
                total_groups as nat,
                groups,
            ),
{
    if n > total_groups {
        // a reference past the pattern's group count expands to nothing
        assert(old(out)@ + Seq::<char>::empty() =~= old(out)@);
        return ;
    }
    let r = lookup(n);
    match r {
        Some(t) => {
            out.push_str(t);
        },
        None => {
            // the group exists but did not participate
            assert(old(out)@ + Seq::<char>::empty() =~= old(out)@);
        },
    }
}

/// Expand the replacement template `repl` for one match.
///
/// * `total_groups`: number of capturing groups in the pattern.
/// * `lookup(n)`: the captured text of group `n` (`0` is the whole match),
///   `None` when the group exists but did not participate in the match.
pub fn expand<'a>(repl: &str, total_groups: usize, lookup: impl Fn(usize) -> Option<&'a str>) -> (out:
    String)
    requires
        lookup_callable(lookup, total_groups),
    ensures
        forall|groups: spec_fn(nat) -> Option<Seq<char>>|
            #[trigger] lookup_consistent(lookup, groups) ==> out@ == expand_spec(
                repl@,
                total_groups as nat,
                groups,
            ),
{
    let ghost total = total_groups as nat;
    let mut out = String::new();
    let chars = chars_of(repl);
    let n = chars.len();
    let mut i: usize = 0;
    proof {
        pow10_values();
        lemma_pow10_mono(2, 9);
        assert forall|groups: spec_fn(nat) -> Option<Seq<char>>|
            #[trigger] lookup_consistent(lookup, groups) implies out@ + expand_from(
                chars@,
                0,
                total,
                groups,
            ) == expand_from(chars@, 0, total, groups) by {
            assert(out@ + expand_from(chars@, 0, total, groups) =~= expand_from(
                chars@,
                0,
                total,
                groups,
            ));
        }
    }
    while i < n
        invariant
            n == chars@.len(),
            chars@ == repl@,
            i <= n,
            lookup_callable(lookup, total_groups),
            total == total_groups as nat,
            pow10(9) == 1000000000,
            forall|groups: spec_fn(nat) -> Option<Seq<char>>|
                #[trigger] lookup_consistent(lookup, groups) ==> out@ + expand_from(
                    chars@,
                    i as int,
                    total,
                    groups,
                ) == expand_from(chars@, 0, total, groups),
        decreases n - i,
    {
        let c = chars[i];
        let has_next = i + 1 < n;
        if c != '\\' && c != '$' {
            out.push(c);
            i = i + 1;
        } else if c == '\\' && has_next && (chars[i + 1] == '\\' || chars[i + 1] == '$') {
            out.push(chars[i + 1]);
            i = i + 2;
        } else if c == '$' && has_next && chars[i + 1] == '{' {
            match parse_braced(chars.as_slice(), i + 2) {
                Some((g, end)) => {
                    proof {
                        let k = digit_run(chars@, i + 2, 9);
                        lemma_digit_run_bound(chars@, i + 2, 9);
                        lemma_decimal_value_bound(chars@, i + 2, k);
                        lemma_pow10_mono(k, 9);
                    }
                    emit_group(&mut out, g, total_groups, &lookup);
                    i = end;
                },
                None => {
                    out.push('$');
                    i = i + 1;
                },
            }
        } else if has_next && '0' <= chars[i + 1] && chars[i + 1] <= '9' {
            let (g, consumed) = parse_number(chars.as_slice(), i + 1, 2);
            proof {
                lemma_digit_run_bound(chars@, i + 1, 2);
            }
            emit_group(&mut out, g, total_groups, &lookup);
            i = i + 1 + consumed;
        } else {
            // the escape char is kept literally (`\q`, a trailing `\` or `$`, ...)
            out.push(c);
            i = i + 1;
        }
    }
    out
}

proof fn lemma_literal_from(
    r: Seq<char>,
    i: int,
    total_groups: nat,
    groups: spec_fn(nat) -> Option<Seq<char>>,
)
    requires
        0 <= i <= r.len(),
        forall|j: int| 0 <= j < r.len() ==> #[trigger] r[j] != '$' && r[j] != '\\',
    ensures
        expand_from(r, i, total_groups, groups) == r.skip(i),
    decreases r.len() - i,
{
    if i < r.len() {
        lemma_literal_from(r, i + 1, total_groups, groups);
        assert(r.skip(i) =~= seq![r[i]] + r.skip(i + 1));
    } else {
        assert(r.skip(i) =~= Seq::<char>::empty());
    }
}

/// A template without `$` or `\` is copied as it is, whatever the captures.
pub proof fn law_literal_template_is_kept(
    r: Seq<char>,
    total_groups: nat,
    groups: spec_fn(nat) -> Option<Seq<char>>,
)
    requires
        forall|j: int| 0 <= j < r.len() ==> #[trigger] r[j] != '$' && r[j] != '\\',
    ensures
        expand_spec(r, total_groups, groups) == r,
{
    lemma_literal_from(r, 0, total_groups, groups);
    assert(r.skip(0) =~= r);
}

/// `$0` expands to the whole match.
pub proof fn law_whole_match_reference(total_groups: nat, groups: spec_fn(nat) -> Option<Seq<char>>)
    requires
        groups(0) is Some,
    ensures
        expand_spec("$0"@, total_groups, groups) == groups(0)->0,
{
    reveal_strlit("$0");
    let r = "$0"@;
    assert(r.len() == 2 && r[0] == '$' && r[1] == '0');
    assert(digit_run(r, 2, 1) == 0);
    assert(digit_run(r, 1, 2) == 1);
    assert(decimal_value(r, 1, 0) == 0);
    assert(decimal_value(r, 1, 1) == 0);
    assert(expand_from(r, 2, total_groups, groups) == Seq::<char>::empty());
    assert(group_text(0, total_groups, groups) == groups(0)->0);
    assert(expand_from(r, 0, total_groups, groups) =~= groups(0)->0);
}

/// What a reference to group `n` stands for: the group's capture when the
/// group exists and took part in the match, nothing otherwise.
pub open spec fn reference_text(n: int, total_groups: nat, groups: spec_fn(nat) -> Option<Seq<char>>) -> Seq<
    char,
> {
    if 0 <= n <= total_groups && groups(n as nat) is Some {
        groups(n as nat)->0
    } else {
        Seq::empty()
    }
}

/// A one-digit reference `$d`, `\d` or `${d}` is replaced by the capture of
/// group `d` (nothing when the group does not exist or did not take part);
/// `\\` and `\$` give the escaped char; `$` before any other char that is
/// no digit and no `{` stays as it is.
pub proof fn law_two_char_templates(
    c: char,
    total_groups: nat,
    groups: spec_fn(nat) -> Option<Seq<char>>,
)
    ensures
        '0' <= c <= '9' ==> expand_spec(seq!['$', c], total_groups, groups) == reference_text(
            c as int - '0' as int,
            total_groups,
            groups,
        ),
        '0' <= c <= '9' ==> expand_spec(seq!['\\', c], total_groups, groups) == reference_text(
            c as int - '0' as int,
            total_groups,
            groups,
        ),
        '0' <= c <= '9' ==> expand_spec(seq!['$', '{', c, '}'], total_groups, groups)
            == reference_text(c as int - '0' as int, total_groups, groups),
        expand_spec(seq!['\\', '\\'], total_groups, groups) == seq!['\\'],
        expand_spec(seq!['\\', '$'], total_groups, groups) == seq!['$'],
        !('0' <= c <= '9') && c != '{' ==> expand_spec(seq!['$', c], total_groups, groups)
            == seq!['$', c],
{
    let r1 = seq!['$', c];
    let r2 = seq!['\\', c];
    let r3 = seq!['$', '{', c, '}'];
    let r4 = seq!['\\', '\\'];
    let r5 = seq!['\\', '$'];
    assert(expand_from(r1, 2, total_groups, groups) == Seq::<char>::empty());
    assert(expand_from(r2, 2, total_groups, groups) == Seq::<char>::empty());
    assert(expand_from(r3, 4, total_groups, groups) == Seq::<char>::empty());
    assert(expand_from(r4, 2, total_groups, groups) == Seq::<char>::empty());
    assert(expand_from(r5, 2, total_groups, groups) == Seq::<char>::empty());
    if '0' <= c <= '9' {
        assert(digit_run(r1, 2, 1) == 0);
        assert(digit_run(r1, 1, 2) == 1);
        assert(digit_run(r2, 2, 1) == 0);
        assert(digit_run(r2, 1, 2) == 1);
        assert(decimal_value(r1, 1, 0) == 0);
        assert(decimal_value(r2, 1, 0) == 0);
        assert(digit_run(r3, 3, 8) == 0);
        assert(digit_run(r3, 2, 9) == 1);
        assert(decimal_value(r3, 2, 0) == 0);
        assert(expand_from(r1, 0, total_groups, groups) =~= reference_text(
            c as int - '0' as int,
            total_groups,
            groups,
        ));
        assert(expand_from(r2, 0, total_groups, groups) =~= reference_text(
            c as int - '0' as int,
            total_groups,
            groups,
        ));
        assert(expand_from(r3, 0, total_groups, groups) =~= reference_text(
            c as int - '0' as int,
            total_groups,
            groups,
        ));
    } else if c != '{' {
        assert(expand_from(r1, 1, total_groups, groups) =~= seq![c]);
        assert(expand_from(r1, 0, total_groups, groups) =~= seq!['$', c]);
    }
    assert(expand_from(r4, 0, total_groups, groups) =~= seq!['\\']);
    assert(expand_from(r5, 0, total_groups, groups) =~= seq!['$']);
}

} // verus!
