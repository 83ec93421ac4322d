use regexr_server::solve::engine::CompileOptions;
use regexr_server::solve::errors::SolveError;
use regexr_server::solve::pcre2::{
    compile_option_bits, jit_enabled, match_option_bits, match_rc, setup_failure, use_jit, MatchRc,
    PCRE2_ANCHORED, PCRE2_CASELESS, PCRE2_DOLLAR_ENDONLY, PCRE2_DOTALL, PCRE2_DUPNAMES,
    PCRE2_ERROR_DEPTHLIMIT, PCRE2_ERROR_JIT_STACKLIMIT, PCRE2_ERROR_MATCHLIMIT,
    PCRE2_ERROR_NOMATCH, PCRE2_ERROR_UTF8_ERR1, PCRE2_ERROR_UTF8_ERR21, PCRE2_EXTENDED,
    PCRE2_MULTILINE, PCRE2_NEVER_BACKSLASH_C, PCRE2_NOTEMPTY_ATSTART, PCRE2_NO_AUTO_CAPTURE,
    PCRE2_UCP, PCRE2_UNGREEDY, PCRE2_UTF,
};
use regexr_server::solve::solver::response_budget_error;

#[test]
fn values_are_the_bindings_values() {
    assert_eq!(PCRE2_CASELESS, pcre2_sys::PCRE2_CASELESS);
    assert_eq!(PCRE2_DOLLAR_ENDONLY, pcre2_sys::PCRE2_DOLLAR_ENDONLY);
    assert_eq!(PCRE2_DOTALL, pcre2_sys::PCRE2_DOTALL);
    assert_eq!(PCRE2_DUPNAMES, pcre2_sys::PCRE2_DUPNAMES);
    assert_eq!(PCRE2_EXTENDED, pcre2_sys::PCRE2_EXTENDED);
    assert_eq!(PCRE2_MULTILINE, pcre2_sys::PCRE2_MULTILINE);
    assert_eq!(PCRE2_NO_AUTO_CAPTURE, pcre2_sys::PCRE2_NO_AUTO_CAPTURE);
    assert_eq!(PCRE2_UCP, pcre2_sys::PCRE2_UCP);
    assert_eq!(PCRE2_UNGREEDY, pcre2_sys::PCRE2_UNGREEDY);
    assert_eq!(PCRE2_UTF, pcre2_sys::PCRE2_UTF);
    assert_eq!(PCRE2_NEVER_BACKSLASH_C, pcre2_sys::PCRE2_NEVER_BACKSLASH_C);
    assert_eq!(PCRE2_ANCHORED, pcre2_sys::PCRE2_ANCHORED);
    assert_eq!(PCRE2_NOTEMPTY_ATSTART, pcre2_sys::PCRE2_NOTEMPTY_ATSTART);
    assert_eq!(PCRE2_ERROR_NOMATCH, pcre2_sys::PCRE2_ERROR_NOMATCH);
    assert_eq!(PCRE2_ERROR_MATCHLIMIT, pcre2_sys::PCRE2_ERROR_MATCHLIMIT);
    assert_eq!(PCRE2_ERROR_DEPTHLIMIT, pcre2_sys::PCRE2_ERROR_DEPTHLIMIT);
    assert_eq!(PCRE2_ERROR_JIT_STACKLIMIT, pcre2_sys::PCRE2_ERROR_JIT_STACKLIMIT);
    assert_eq!(PCRE2_ERROR_UTF8_ERR1, pcre2_sys::PCRE2_ERROR_UTF8_ERR1);
    assert_eq!(PCRE2_ERROR_UTF8_ERR21, pcre2_sys::PCRE2_ERROR_UTF8_ERR21);
}

fn options() -> CompileOptions {
    CompileOptions {
        global: false,
        caseless: false,
        multiline: false,
        no_auto_capture: false,
        dotall: false,
        extended: false,
        ungreedy: false,
        anchored: false,
        dollar_endonly: false,
        dupnames: false,
    }
}

#[test]
fn option_bits() {
    let always = PCRE2_UTF | PCRE2_UCP | PCRE2_NEVER_BACKSLASH_C;
    assert_eq!(compile_option_bits(&options()), always);
    let o = CompileOptions { global: true, caseless: true, dotall: true, ..options() };
    assert_eq!(compile_option_bits(&o), always | PCRE2_CASELESS | PCRE2_DOTALL);
    assert_eq!(match_option_bits(true), PCRE2_ANCHORED | PCRE2_NOTEMPTY_ATSTART);
    assert_eq!(match_option_bits(false), 0);
}

#[test]
fn status_codes() {
    assert!(matches!(match_rc(0), MatchRc::Matched));
    assert!(matches!(match_rc(3), MatchRc::Matched));
    assert!(matches!(match_rc(-1), MatchRc::NoMatch));
    assert!(matches!(match_rc(-47), MatchRc::Failed(SolveError::MatchLimit)));
    assert!(matches!(match_rc(-53), MatchRc::Failed(SolveError::DepthLimit)));
    assert!(matches!(match_rc(-46), MatchRc::Failed(SolveError::JitStackLimit)));
    assert!(matches!(match_rc(-3), MatchRc::Failed(SolveError::BadUtf8)));
    assert!(matches!(match_rc(-23), MatchRc::Failed(SolveError::BadUtf8)));
    assert!(matches!(match_rc(-24), MatchRc::Internal(-24)));
    assert!(matches!(match_rc(-2), MatchRc::Internal(-2)));
}

#[test]
fn jit_choice() {
    assert!(use_jit(true, false));
    assert!(!use_jit(true, true));
    assert!(!use_jit(false, false));
    assert!(jit_enabled(0, true));
    assert!(!jit_enabled(-45, true));
    assert!(!jit_enabled(0, false));
}

#[test]
fn refused_setups() {
    match setup_failure(false, 0) {
        Some(SolveError::Internal { code: 0, message }) => assert_eq!(message, "PCRE2 allocation failed"),
        other => panic!("unexpected {other:?}"),
    }
    match setup_failure(true, -34) {
        Some(SolveError::Internal { code: 0, message }) => {
            assert_eq!(message, "failed to install PCRE2 match limits")
        }
        other => panic!("unexpected {other:?}"),
    }
    assert!(setup_failure(true, 0).is_none());
}

#[test]
fn response_budget() {
    assert!(response_budget_error(32 * 1024 * 1024).is_none());
    assert!(matches!(response_budget_error(32 * 1024 * 1024 + 1), Some(SolveError::ResultTooLarge)));
}
