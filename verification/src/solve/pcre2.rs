//! What the solve logic decides around PCRE2's C API: the option bits a
//! compile gets, whether the JIT runs a match attempt, what a match call's
//! status code means, and when a compiled pattern is refused. The values
//! below are PCRE2's (`pcre2.h`), as `pcre2_sys` exports them.

use vstd::prelude::*;

use crate::solve::engine::CompileOptions;
use crate::solve::errors::SolveError;

verus! {

/// `PCRE2_CASELESS`.
pub const PCRE2_CASELESS: u32 = 8;

/// `PCRE2_DOLLAR_ENDONLY`.
pub const PCRE2_DOLLAR_ENDONLY: u32 = 16;

/// `PCRE2_DOTALL`.
pub const PCRE2_DOTALL: u32 = 32;

/// `PCRE2_DUPNAMES`.
pub const PCRE2_DUPNAMES: u32 = 64;

/// `PCRE2_EXTENDED`.
pub const PCRE2_EXTENDED: u32 = 128;

/// `PCRE2_MULTILINE`.
pub const PCRE2_MULTILINE: u32 = 1024;

/// `PCRE2_NO_AUTO_CAPTURE`.
pub const PCRE2_NO_AUTO_CAPTURE: u32 = 8192;

/// `PCRE2_UCP`: `\w`, `\d`, `\s`, `\b` use Unicode properties.
pub const PCRE2_UCP: u32 = 131072;

/// `PCRE2_UNGREEDY`.
pub const PCRE2_UNGREEDY: u32 = 262144;

/// `PCRE2_UTF`.
pub const PCRE2_UTF: u32 = 524288;

/// `PCRE2_NEVER_BACKSLASH_C`: `\C` is refused (unsafe in UTF mode).
pub const PCRE2_NEVER_BACKSLASH_C: u32 = 1048576;

/// `PCRE2_ANCHORED` (compile and match option).
pub const PCRE2_ANCHORED: u32 = 2147483648;

/// `PCRE2_NOTEMPTY_ATSTART` (match option).
pub const PCRE2_NOTEMPTY_ATSTART: u32 = 8;

/// The options every pattern is compiled with, as PHP's `/u` modifier sets
/// them: UTF, UCP and NEVER_BACKSLASH_C.
pub open spec fn always_on_options() -> u32 {
    PCRE2_UTF | PCRE2_UCP | PCRE2_NEVER_BACKSLASH_C
}

/// The compile option bits for the options the flags selected: the
/// always-on set plus one bit per selected option (`g` is no PCRE2 option).
pub open spec fn option_bits(o: CompileOptions) -> u32 {
    always_on_options() | (if o.caseless {
        PCRE2_CASELESS
    } else {
        0
    }) | (if o.multiline {
        PCRE2_MULTILINE
    } else {
        0
    }) | (if o.no_auto_capture {
        PCRE2_NO_AUTO_CAPTURE
    } else {
        0
    }) | (if o.dotall {
        PCRE2_DOTALL
    } else {
        0
    }) | (if o.extended {
        PCRE2_EXTENDED
    } else {
        0
    }) | (if o.ungreedy {
        PCRE2_UNGREEDY
    } else {
        0
    }) | (if o.anchored {
        PCRE2_ANCHORED
    } else {
        0
    }) | (if o.dollar_endonly {
        PCRE2_DOLLAR_ENDONLY
    } else {
        0
    }) | (if o.dupnames {
        PCRE2_DUPNAMES
    } else {
        0
    })
}

/// The `pcre2_compile` option bits for `o`.
pub fn compile_option_bits(o: &CompileOptions) -> (r: u32)
    ensures
        r == option_bits(*o),
{
    (PCRE2_UTF | PCRE2_UCP | PCRE2_NEVER_BACKSLASH_C) | (if o.caseless {
        PCRE2_CASELESS
    } else {
        0
    }) | (if o.multiline {
        PCRE2_MULTILINE
    } else {
        0
    }) | (if o.no_auto_capture {
        PCRE2_NO_AUTO_CAPTURE
    } else {
        0
    }) | (if o.dotall {
        PCRE2_DOTALL
    } else {
        0
    }) | (if o.extended {
        PCRE2_EXTENDED
    } else {
        0
    }) | (if o.ungreedy {
        PCRE2_UNGREEDY
    } else {
        0
    }) | (if o.anchored {
        PCRE2_ANCHORED
    } else {
        0
    }) | (if o.dollar_endonly {
        PCRE2_DOLLAR_ENDONLY
    } else {
        0
    }) | (if o.dupnames {
        PCRE2_DUPNAMES
    } else {
        0
    })
}

/// Match options of an attempt: the non-empty retry after an empty match
/// is anchored and may not be empty at its start.
pub fn match_option_bits(retry: bool) -> (r: u32)
    ensures
        r == if retry {
            PCRE2_ANCHORED | PCRE2_NOTEMPTY_ATSTART
        } else {
            0
        },
{
    if retry {
        PCRE2_ANCHORED | PCRE2_NOTEMPTY_ATSTART
    } else {
        0
    }
}

/// Whether an attempt runs on the JIT. `pcre2_jit_match` ignores
/// `PCRE2_ANCHORED`, which would turn the anchored retry into a forward
/// scan, so the retry always runs on the interpreter.
pub fn use_jit(jit: bool, retry: bool) -> (r: bool)
    ensures
        r == (jit && !retry),
{
    jit && !retry
}

/// Whether matching uses the JIT: only when JIT compilation succeeded
/// (`jit_rc >= 0`) and a JIT stack was created. Otherwise the interpreter
/// runs, under the same limits.
pub fn jit_enabled(jit_rc: i32, stack_created: bool) -> (r: bool)
    ensures
        r == (jit_rc >= 0 && stack_created),
{
    jit_rc >= 0 && stack_created
}

/// `PCRE2_ERROR_NOMATCH`.
pub const PCRE2_ERROR_NOMATCH: i32 = -1;

/// `PCRE2_ERROR_UTF8_ERR21`, the lowest UTF-8 error code.
pub const PCRE2_ERROR_UTF8_ERR21: i32 = -23;

/// `PCRE2_ERROR_UTF8_ERR1`, the highest UTF-8 error code.
pub const PCRE2_ERROR_UTF8_ERR1: i32 = -3;

/// `PCRE2_ERROR_JIT_STACKLIMIT`.
pub const PCRE2_ERROR_JIT_STACKLIMIT: i32 = -46;

/// `PCRE2_ERROR_MATCHLIMIT`.
pub const PCRE2_ERROR_MATCHLIMIT: i32 = -47;

/// `PCRE2_ERROR_DEPTHLIMIT`.
pub const PCRE2_ERROR_DEPTHLIMIT: i32 = -53;

/// What a match call's status code means.
#[derive(Debug)]
pub enum MatchRc {
    Matched,
    NoMatch,
    /// A limit or input error with its own error object.
    Failed(SolveError),
    /// Any other PCRE2 error code; its message comes from PCRE2.
    Internal(i32),
}

/// The meaning of the status code `rc` of `pcre2_match` / `pcre2_jit_match`.
pub open spec fn match_rc_spec(rc: i32) -> MatchRc {
    if rc >= 0 {
        MatchRc::Matched
    } else if rc == PCRE2_ERROR_NOMATCH {
        MatchRc::NoMatch
    } else if rc == PCRE2_ERROR_MATCHLIMIT {
        MatchRc::Failed(SolveError::MatchLimit)
    } else if rc == PCRE2_ERROR_DEPTHLIMIT {
        MatchRc::Failed(SolveError::DepthLimit)
    } else if rc == PCRE2_ERROR_JIT_STACKLIMIT {
        MatchRc::Failed(SolveError::JitStackLimit)
    } else if PCRE2_ERROR_UTF8_ERR21 <= rc <= PCRE2_ERROR_UTF8_ERR1 {
        MatchRc::Failed(SolveError::BadUtf8)
    } else {
        MatchRc::Internal(rc)
    }
}

/// Read a match call's status code.
pub fn match_rc(rc: i32) -> (r: MatchRc)
    ensures
        r == match_rc_spec(rc),
{
    if rc >= 0 {
        MatchRc::Matched
    } else if rc == PCRE2_ERROR_NOMATCH {
        MatchRc::NoMatch
    } else if rc == PCRE2_ERROR_MATCHLIMIT {
        MatchRc::Failed(SolveError::MatchLimit)
    } else if rc == PCRE2_ERROR_DEPTHLIMIT {
        MatchRc::Failed(SolveError::DepthLimit)
    } else if rc == PCRE2_ERROR_JIT_STACKLIMIT {
        MatchRc::Failed(SolveError::JitStackLimit)
    } else if PCRE2_ERROR_UTF8_ERR21 <= rc && rc <= PCRE2_ERROR_UTF8_ERR1 {
        MatchRc::Failed(SolveError::BadUtf8)
    } else {
        MatchRc::Internal(rc)
    }
}

/// The refusal of a compiled pattern whose match data or match context
/// could not be allocated, or whose match and depth limits could not be
/// installed (`pcre2_set_*_limit` returned non-zero): without them the
/// anti-DoS limits would not hold, so the pattern is not run at all.
pub open spec fn setup_failure_spec(allocated: bool, limits_rc: i32) -> Option<Seq<char>> {
    if !allocated {
        Some("PCRE2 allocation failed"@)
    } else if limits_rc != 0 {
        Some("failed to install PCRE2 match limits"@)
    } else {
        None
    }
}

/// Whether a compiled pattern may run: `allocated` when both the match
/// data and the match context were created, `limits_rc` the first non-zero
/// status of installing the match and depth limits (0 when both were
/// installed).
pub fn setup_failure(allocated: bool, limits_rc: i32) -> (r: Option<SolveError>)
    ensures
        match setup_failure_spec(allocated, limits_rc) {
            Some(m) => r matches Some(SolveError::Internal { code, message }) && code == 0
                && message@ == m,
            None => r is None,
        },
{
    if !allocated {
        Some(SolveError::Internal { code: 0, message: "PCRE2 allocation failed".to_owned() })
    } else if limits_rc != 0 {
        Some(
            SolveError::Internal {
                code: 0,
                message: "failed to install PCRE2 match limits".to_owned(),
            },
        )
    } else {
        None
    }
}

proof fn lemma_option_bits(
    caseless: bool,
    multiline: bool,
    no_auto_capture: bool,
    dotall: bool,
    extended: bool,
    ungreedy: bool,
    anchored: bool,
    dollar_endonly: bool,
    dupnames: bool,
    r: u32,
)
    by (bit_vector)
    requires
        r == (524288u32 | 131072u32 | 1048576u32) | (if caseless {
            8u32
        } else {
            0u32
        }) | (if multiline {
            1024u32
        } else {
            0u32
        }) | (if no_auto_capture {
            8192u32
        } else {
            0u32
        }) | (if dotall {
            32u32
        } else {
            0u32
        }) | (if extended {
            128u32
        } else {
            0u32
        }) | (if ungreedy {
            262144u32
        } else {
            0u32
        }) | (if anchored {
            2147483648u32
        } else {
            0u32
        }) | (if dollar_endonly {
            16u32
        } else {
            0u32
        }) | (if dupnames {
            64u32
        } else {
            0u32
        }),
    ensures
        r & 524288u32 != 0,
        r & 131072u32 != 0,
        r & 1048576u32 != 0,
        (r & 8u32 != 0) == caseless,
        (r & 1024u32 != 0) == multiline,
        (r & 8192u32 != 0) == no_auto_capture,
        (r & 32u32 != 0) == dotall,
        (r & 128u32 != 0) == extended,
        (r & 262144u32 != 0) == ungreedy,
        (r & 2147483648u32 != 0) == anchored,
        (r & 16u32 != 0) == dollar_endonly,
        (r & 64u32 != 0) == dupnames,
        r & !(524288u32 | 131072u32 | 1048576u32 | 8u32 | 1024u32 | 8192u32 | 32u32 | 128u32
            | 262144u32 | 2147483648u32 | 16u32 | 64u32) == 0,
{
}

/// The compile bits of every option set: UTF (`0x80000`), UCP (`0x20000`)
/// and NEVER_BACKSLASH_C (`0x100000`) always, and each PCRE2 option bit
/// exactly when its flag selected it (`i` CASELESS `0x8`, `m` MULTILINE
/// `0x400`, `n` NO_AUTO_CAPTURE `0x2000`, `s` DOTALL `0x20`, `x` EXTENDED
/// `0x80`, `U` UNGREEDY `0x40000`, `A` ANCHORED `0x80000000`, `D`
/// DOLLAR_ENDONLY `0x10`, `J` DUPNAMES `0x40`); no other bit.
pub proof fn law_option_bits(o: CompileOptions)
    ensures
        option_bits(o) & 524288u32 != 0,
        option_bits(o) & 131072u32 != 0,
        option_bits(o) & 1048576u32 != 0,
        (option_bits(o) & 8u32 != 0) == o.caseless,
        (option_bits(o) & 1024u32 != 0) == o.multiline,
        (option_bits(o) & 8192u32 != 0) == o.no_auto_capture,
        (option_bits(o) & 32u32 != 0) == o.dotall,
        (option_bits(o) & 128u32 != 0) == o.extended,
        (option_bits(o) & 262144u32 != 0) == o.ungreedy,
        (option_bits(o) & 2147483648u32 != 0) == o.anchored,
        (option_bits(o) & 16u32 != 0) == o.dollar_endonly,
        (option_bits(o) & 64u32 != 0) == o.dupnames,
        option_bits(o) & !(524288u32 | 131072u32 | 1048576u32 | 8u32 | 1024u32 | 8192u32 | 32u32
            | 128u32 | 262144u32 | 2147483648u32 | 16u32 | 64u32) == 0,
{
    lemma_option_bits(
        o.caseless,
        o.multiline,
        o.no_auto_capture,
        o.dotall,
        o.extended,
        o.ungreedy,
        o.anchored,
        o.dollar_endonly,
        o.dupnames,
        option_bits(o),
    );
}

/// The retry after an empty match is anchored (`0x80000000`) and may not be
/// empty at its start (`0x8`); a plain attempt has no match option.
pub proof fn law_match_option_bits(retry: bool, r: u32)
    requires
        r == if retry {
            PCRE2_ANCHORED | PCRE2_NOTEMPTY_ATSTART
        } else {
            0
        },
    ensures
        retry ==> r == 2147483656u32,
        !retry ==> r == 0,
{
    assert(2147483648u32 | 8u32 == 2147483656u32) by (bit_vector);
}

/// What a match call's status code means, over every code: a match exactly
/// for `rc >= 0`, no match exactly for `-1`, the match limit for `-47`, the
/// depth limit for `-53`, the JIT stack limit for `-46`, bad UTF-8 for the
/// UTF-8 errors `-23..=-3`, and for every other code an internal error
/// carrying that code.
pub proof fn law_match_rc(rc: i32)
    ensures
        (match_rc_spec(rc) is Matched) == (rc >= 0),
        (match_rc_spec(rc) is NoMatch) == (rc == -1),
        (match_rc_spec(rc) == MatchRc::Failed(SolveError::MatchLimit)) == (rc == -47),
        (match_rc_spec(rc) == MatchRc::Failed(SolveError::DepthLimit)) == (rc == -53),
        (match_rc_spec(rc) == MatchRc::Failed(SolveError::JitStackLimit)) == (rc == -46),
        (match_rc_spec(rc) == MatchRc::Failed(SolveError::BadUtf8)) == (-23 <= rc <= -3),
        match_rc_spec(rc) is Internal ==> match_rc_spec(rc) == MatchRc::Internal(rc) && rc < -1
            && rc != -46 && rc != -47 && rc != -53 && !(-23 <= rc <= -3),
        match_rc_spec(rc) matches MatchRc::Failed(e) ==> (e is MatchLimit || e is DepthLimit
            || e is JitStackLimit || e is BadUtf8),
{
}

} // verus!
