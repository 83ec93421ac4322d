//! Solve-level errors. The frontend receives them inside the success
//! envelope as `data.error = {message?, name, id, warning?}`.

use vstd::prelude::*;

verus! {

/// An error of one solve request.
#[derive(Debug, Clone)]
pub enum SolveError {
    /// Pattern failed to compile. `message` embeds "at offset N".
    RegexParse { message: String },
    /// PCRE2 match limit reached (catastrophic backtracking).
    MatchLimit,
    /// PCRE2 depth limit reached.
    DepthLimit,
    /// PCRE2 JIT stack limit reached.
    JitStackLimit,
    /// Subject failed UTF-8 validation.
    BadUtf8,
    /// The result (capture-group cells, replace/list output) exceeded the
    /// configured resource budget. Reported as an explicit error: a result
    /// is never silently truncated.
    ResultTooLarge,
    /// Any other PCRE2 runtime error.
    Internal { code: i32, message: String },
}

/// The error object sent to the frontend: `{message?, name, id, warning?}`.
/// `name` is a key of the frontend reference docs, which explain it.
#[derive(Debug)]
pub struct ErrorJson {
    pub message: Option<String>,
    pub name: String,
    pub id: String,
    /// Present (as `true`) only for warning-shaped limit errors.
    pub warning: bool,
}

/// The error object of `e`: compile and internal errors are
/// `{message, name: "PREG_INTERNAL_ERROR", id: "error"}`, limit errors are
/// warnings `{name: "PREG_*_LIMIT_ERROR", id: "infinite", warning: true}`
/// without a message.
pub open spec fn error_json_spec(e: SolveError) -> (Option<Seq<char>>, Seq<char>, Seq<char>, bool) {
    match e {
        SolveError::RegexParse { message } => (
            Some(message@),
            "PREG_INTERNAL_ERROR"@,
            "error"@,
            false,
        ),
        SolveError::MatchLimit => (None, "PREG_BACKTRACK_LIMIT_ERROR"@, "infinite"@, true),
        SolveError::DepthLimit => (None, "PREG_RECURSION_LIMIT_ERROR"@, "infinite"@, true),
        SolveError::JitStackLimit => (None, "PREG_JIT_STACKLIMIT_ERROR"@, "infinite"@, true),
        SolveError::BadUtf8 => (None, "PREG_BAD_UTF8_ERROR"@, "badutf8"@, false),
        SolveError::ResultTooLarge => (
            Some("Result exceeded server resource limits"@),
            "PREG_INTERNAL_ERROR"@,
            "error"@,
            false,
        ),
        SolveError::Internal { message, .. } => (
            Some(message@),
            "PREG_INTERNAL_ERROR"@,
            "error"@,
            false,
        ),
    }
}

/// The fields of an error object, as text.
pub open spec fn error_json_view(j: ErrorJson) -> (Option<Seq<char>>, Seq<char>, Seq<char>, bool) {
    (
        match j.message {
            Some(m) => Some(m@),
            None => None,
        },
        j.name@,
        j.id@,
        j.warning,
    )
}

fn owned(s: &str) -> (r: String)
    ensures
        r@ == s@,
{
    s.to_owned()
}

impl SolveError {
    /// The error object the frontend expects for this error. Limit errors
    /// carry no message: the frontend falls back to the reference-doc tip
    /// for `name`.
    pub fn to_json(&self) -> (j: ErrorJson)
        ensures
            error_json_view(j) == error_json_spec(*self),
    {
        match self {
            SolveError::RegexParse { message } => ErrorJson {
                message: Some(message.clone()),
                name: owned("PREG_INTERNAL_ERROR"),
                id: owned("error"),
                warning: false,
            },
            SolveError::MatchLimit => ErrorJson {
                message: None,
                name: owned("PREG_BACKTRACK_LIMIT_ERROR"),
                id: owned("infinite"),
                warning: true,
            },
            SolveError::DepthLimit => ErrorJson {
                message: None,
                name: owned("PREG_RECURSION_LIMIT_ERROR"),
                id: owned("infinite"),
                warning: true,
            },
            SolveError::JitStackLimit => ErrorJson {
                message: None,
                name: owned("PREG_JIT_STACKLIMIT_ERROR"),
                id: owned("infinite"),
                warning: true,
            },
            SolveError::BadUtf8 => ErrorJson {
                message: None,
                name: owned("PREG_BAD_UTF8_ERROR"),
                id: owned("badutf8"),
                warning: false,
            },
            SolveError::ResultTooLarge => ErrorJson {
                message: Some(owned("Result exceeded server resource limits")),
                name: owned("PREG_INTERNAL_ERROR"),
                id: owned("error"),
                warning: false,
            },
            SolveError::Internal { message, .. } => ErrorJson {
                message: Some(message.clone()),
                name: owned("PREG_INTERNAL_ERROR"),
                id: owned("error"),
                warning: false,
            },
        }
    }
}

} // verus!
