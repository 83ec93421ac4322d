//! Central security & resource-limit configuration: every hardening knob in
//! one place.

use vstd::prelude::*;

verus! {

/// Maximum accepted request body size (form-urlencoded `data` JSON).
pub const MAX_BODY_BYTES: usize = 1048576;

/// Maximum number of concurrent solve requests before shedding load.
pub const MAX_CONCURRENT_SOLVE: usize = 8;

/// Wall-clock backstop for a request in seconds. It cannot interrupt a
/// running match; the hard limits against pathological patterns are the
/// PCRE2 match and depth limits below.
pub const REQUEST_TIMEOUT_SECS: u64 = 10;

/// PCRE2 match limit: bounds total match attempts.
pub const PCRE2_MATCH_LIMIT: u32 = 1000000;

/// PCRE2 depth limit: bounds backtracking depth.
pub const PCRE2_DEPTH_LIMIT: u32 = 10000;

/// Initial JIT stack size in bytes.
pub const JIT_STACK_START: usize = 65536;

/// Maximum JIT stack size in bytes.
pub const JIT_STACK_MAX: usize = 1048576;

/// Maximum number of matches returned for one solve.
pub const MAX_MATCHES: usize = 20000;

/// Maximum number of capture cells (matches x (groups + 1)) materialised for
/// one solve.
pub const MAX_CAPTURE_CELLS: usize = 1000000;

/// Maximum expanded `replace` / `list` tool output size in bytes.
pub const MAX_TOOL_RESULT_BYTES: usize = 4194304;

/// Backstop for the serialised JSON response in bytes.
pub const MAX_RESPONSE_BYTES: usize = 33554432;

/// Maximum number of tests run for one request in `tests` mode.
pub const MAX_TESTS: usize = 1000;

/// Maximum pattern length in bytes.
pub const MAX_PATTERN_BYTES: usize = 16384;

} // verus!
