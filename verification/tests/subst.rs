use regexr_server::solve::subst::expand;

#[test]
fn literal_passthrough() {
    assert_eq!(expand("plain", 0, |_| -> Option<&str> { None }), "plain");
}

#[test]
fn backslash_forms() {
    assert_eq!(expand("a\\\\b", 0, |_| None), "a\\b");
    assert_eq!(expand("a\\$1", 0, |_| None), "a$1");
    assert_eq!(expand("a\\q", 0, |_| None), "a\\q");
}

#[test]
fn dollar_and_backslash_refs() {
    let lookup = |n: usize| if n == 1 { Some("A") } else { None };
    assert_eq!(expand("\\1", 1, lookup), "A");
    assert_eq!(expand("$1", 1, lookup), "A");
    assert_eq!(expand("${1}", 1, lookup), "A");
    assert_eq!(expand("$1$1", 1, lookup), "AA");
}

#[test]
fn unmatched_existing_group_is_empty() {
    let lookup = |n: usize| if n == 1 { Some("A") } else { None };
    assert_eq!(expand("[\\2]", 2, lookup), "[]");
}

#[test]
fn nonexistent_group_is_empty() {
    // A reference past the group count expands to nothing: no
    // decomposition, no literal echo.
    let lookup = |n: usize| if n == 1 { Some("A") } else { None };
    assert_eq!(expand("$13", 1, lookup), "");
    assert_eq!(expand("$9", 1, lookup), "");
    assert_eq!(expand("\\12", 1, lookup), "");
    assert_eq!(expand("${13}", 1, lookup), "");
    // two digits parse as one reference when the group exists
    let lookup13 = |n: usize| if n == 13 { Some("X") } else { None };
    assert_eq!(expand("$13", 15, lookup13), "X");
    // two digits when only a 1-digit group exists: nothing (not $1+"3")
    assert_eq!(expand("$12", 1, lookup), "");
}

#[test]
fn dollar_without_digits_is_literal() {
    assert_eq!(expand("$ x", 0, |_| None), "$ x");
    assert_eq!(expand("cost: $", 0, |_| None), "cost: $");
}

#[test]
fn whole_match_reference() {
    let lookup = |n: usize| if n == 0 { Some("whole") } else { None };
    assert_eq!(expand("$0", 0, lookup), "whole");
    assert_eq!(expand("<\\0>", 0, lookup), "<whole>");
}

#[test]
fn braced_reference_forms() {
    let lookup = |n: usize| if n == 1 { Some("A") } else { None };
    // unclosed or empty braces keep the `$`
    assert_eq!(expand("${1", 1, lookup), "${1");
    assert_eq!(expand("${}", 1, lookup), "${}");
    assert_eq!(expand("${01}x", 1, lookup), "Ax");
    // three digits after `$`: two are read, the third is literal
    assert_eq!(expand("$123", 1, lookup), "3");
    // a trailing backslash is literal
    assert_eq!(expand("a\\", 0, lookup), "a\\");
}
